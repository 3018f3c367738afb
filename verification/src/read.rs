//! Typed projection of a spawned tree: readers for the current values, and
//! cheaply comparable change witnesses aggregated from per-node generations.

use vstd::prelude::*;

use crate::schema::{handle_ok, handles_ok, SpawnNode};
use crate::tree::{ConfigStore, ConfigVal, ConfigValue};
use crate::FieldGeneration;

verus! {

/// The mathematical value of a [`Reader`].
pub enum ReadVal {
    /// A scalar's current value.
    Scalar(ConfigVal),
    /// A struct's fields, in declaration order.
    Struct(Seq<ReadVal>),
    /// An enum: the active variant and that variant's fields.
    Enum {
        /// The active-variant index.
        variant: usize,
        /// The active variant's fields, in declaration order.
        fields: Seq<ReadVal>,
    },
}

/// The read-only projection of a config field's current value.  Composites
/// list their fields in declaration order; an enum projects only its active
/// variant.
pub enum Reader {
    /// A scalar's current value.
    Scalar(ConfigValue),
    /// A struct's fields, in declaration order.
    Struct(Vec<Reader>),
    /// An enum: the active variant and that variant's fields.
    Enum {
        /// The active-variant index.
        variant: usize,
        /// The active variant's fields, in declaration order.
        fields: Vec<Reader>,
    },
}

/// The mathematical value of a reader.
pub open spec fn reader_view(r: Reader) -> ReadVal
    decreases r,
{
    match r {
        Reader::Scalar(v) => ReadVal::Scalar(v@),
        Reader::Struct(fs) => ReadVal::Struct(reader_views(fs@)),
        Reader::Enum { variant, fields } => ReadVal::Enum {
            variant,
            fields: reader_views(fields@),
        },
    }
}

/// The mathematical values of a reader list.
pub open spec fn reader_views(rs: Seq<Reader>) -> Seq<ReadVal>
    decreases rs,
{
    if rs.len() == 0 {
        Seq::empty()
    } else {
        reader_views(rs.drop_last()).push(reader_view(rs.last()))
    }
}

/// `reader_views` maps the list element-wise.
pub proof fn lemma_reader_views(rs: Seq<Reader>)
    ensures
        reader_views(rs).len() == rs.len(),
        forall|j: int| 0 <= j < rs.len() ==> reader_views(rs)[j] == reader_view(#[trigger] rs[j]),
    decreases rs.len(),
{
    if rs.len() > 0 {
        lemma_reader_views(rs.drop_last());
        assert forall|j: int| 0 <= j < rs.len() implies reader_views(rs)[j] == reader_view(
            #[trigger] rs[j],
        ) by {
            if j < rs.len() - 1 {
                assert(rs.drop_last()[j] == rs[j]);
            }
        }
    }
}

impl View for Reader {
    type V = ReadVal;

    open spec fn view(&self) -> ReadVal {
        reader_view(*self)
    }
}

/// What reading each handle of a list yields.
pub open spec fn spec_read_list(store: ConfigStore, hs: Seq<SpawnNode>) -> Seq<ReadVal>
    decreases hs,
{
    if hs.len() == 0 {
        Seq::empty()
    } else {
        spec_read_list(store, hs.drop_last()).push(spec_read(store, hs.last()))
    }
}

/// What reading the subtree under `h` yields: scalar values at the leaves,
/// the active variant's fields at enums.
pub open spec fn spec_read(store: ConfigStore, h: SpawnNode) -> ReadVal
    decreases h,
{
    match h {
        SpawnNode::Scalar(id) => ReadVal::Scalar(store.nodes@[id.0 as int].scalar->Some_0.data.0@),
        SpawnNode::Struct { node, fields } => ReadVal::Struct(spec_read_list(store, fields@)),
        SpawnNode::Enum { node, discrim, variants } => {
            let d = crate::schema::discrim_of(store, discrim);
            ReadVal::Enum {
                variant: d,
                fields: if d < variants@.len() {
                    spec_read_list(store, variants@[d as int]@)
                } else {
                    Seq::empty()
                },
            }
        },
    }
}

/// `spec_read_list` maps the handle list element-wise.
pub proof fn lemma_spec_read_list(store: ConfigStore, hs: Seq<SpawnNode>)
    ensures
        spec_read_list(store, hs).len() == hs.len(),
        forall|j: int|
            0 <= j < hs.len() ==> spec_read_list(store, hs)[j] == spec_read(
                store,
                #[trigger] hs[j],
            ),
    decreases hs.len(),
{
    if hs.len() > 0 {
        lemma_spec_read_list(store, hs.drop_last());
        assert forall|j: int| 0 <= j < hs.len() implies spec_read_list(store, hs)[j] == spec_read(
            store,
            #[trigger] hs[j],
        ) by {
            if j < hs.len() - 1 {
                assert(hs.drop_last()[j] == hs[j]);
            }
        }
    }
}

/// The mathematical value of a [`Changed`] witness.
pub enum ChangedVal {
    /// A scalar's generation.
    Scalar(u64),
    /// A struct's member witnesses, in declaration order.
    Struct(Seq<ChangedVal>),
    /// An enum: the active variant tag and the active variant's member
    /// witnesses.
    Enum {
        /// The active-variant index.
        variant: usize,
        /// The active variant's member witnesses.
        fields: Seq<ChangedVal>,
    },
}

/// An opaque, cheaply comparable change witness.  A scalar's witness is its
/// node's generation; composites aggregate their members structurally; an
/// enum's witness is keyed by the active variant tag, so it differs both when
/// a field inside the active variant changes and when the variant switches.
pub enum Changed {
    /// A scalar's generation.
    Scalar(FieldGeneration),
    /// A struct's member witnesses, in declaration order.
    Struct(Vec<Changed>),
    /// An enum: the active variant tag and the active variant's member
    /// witnesses.
    Enum {
        /// The active-variant index.
        variant: usize,
        /// The active variant's member witnesses.
        fields: Vec<Changed>,
    },
}

/// The mathematical value of a change witness.
pub open spec fn changed_view(c: Changed) -> ChangedVal
    decreases c,
{
    match c {
        Changed::Scalar(g) => ChangedVal::Scalar(g.0),
        Changed::Struct(fs) => ChangedVal::Struct(changed_views(fs@)),
        Changed::Enum { variant, fields } => ChangedVal::Enum {
            variant,
            fields: changed_views(fields@),
        },
    }
}

/// The mathematical values of a witness list.
pub open spec fn changed_views(cs: Seq<Changed>) -> Seq<ChangedVal>
    decreases cs,
{
    if cs.len() == 0 {
        Seq::empty()
    } else {
        changed_views(cs.drop_last()).push(changed_view(cs.last()))
    }
}

/// `changed_views` maps the list element-wise.
pub proof fn lemma_changed_views(cs: Seq<Changed>)
    ensures
        changed_views(cs).len() == cs.len(),
        forall|j: int| 0 <= j < cs.len() ==> changed_views(cs)[j] == changed_view(#[trigger] cs[j]),
    decreases cs.len(),
{
    if cs.len() > 0 {
        lemma_changed_views(cs.drop_last());
        assert forall|j: int| 0 <= j < cs.len() implies changed_views(cs)[j] == changed_view(
            #[trigger] cs[j],
        ) by {
            if j < cs.len() - 1 {
                assert(cs.drop_last()[j] == cs[j]);
            }
        }
    }
}

impl View for Changed {
    type V = ChangedVal;

    open spec fn view(&self) -> ChangedVal {
        changed_view(*self)
    }
}

/// The change witnesses of a handle list.
pub open spec fn spec_changed_list(store: ConfigStore, hs: Seq<SpawnNode>) -> Seq<ChangedVal>
    decreases hs,
{
    if hs.len() == 0 {
        Seq::empty()
    } else {
        spec_changed_list(store, hs.drop_last()).push(spec_changed(store, hs.last()))
    }
}

/// The change witness of the subtree under `h`: generations at the leaves,
/// aggregated structurally, keyed by the active variant at enums.
pub open spec fn spec_changed(store: ConfigStore, h: SpawnNode) -> ChangedVal
    decreases h,
{
    match h {
        SpawnNode::Scalar(id) => ChangedVal::Scalar(store.nodes@[id.0 as int].node.generation.0),
        SpawnNode::Struct { node, fields } => ChangedVal::Struct(spec_changed_list(store, fields@)),
        SpawnNode::Enum { node, discrim, variants } => {
            let d = crate::schema::discrim_of(store, discrim);
            ChangedVal::Enum {
                variant: d,
                fields: if d < variants@.len() {
                    spec_changed_list(store, variants@[d as int]@)
                } else {
                    Seq::empty()
                },
            }
        },
    }
}

/// `spec_changed_list` maps the handle list element-wise.
pub proof fn lemma_spec_changed_list(store: ConfigStore, hs: Seq<SpawnNode>)
    ensures
        spec_changed_list(store, hs).len() == hs.len(),
        forall|j: int|
            0 <= j < hs.len() ==> spec_changed_list(store, hs)[j] == spec_changed(
                store,
                #[trigger] hs[j],
            ),
    decreases hs.len(),
{
    if hs.len() > 0 {
        lemma_spec_changed_list(store, hs.drop_last());
        assert forall|j: int|
            0 <= j < hs.len() implies spec_changed_list(store, hs)[j] == spec_changed(
            store,
            #[trigger] hs[j],
        ) by {
            if j < hs.len() - 1 {
                assert(hs.drop_last()[j] == hs[j]);
            }
        }
    }
}

/// Reads the currently active variant of the discriminant node `discrim`.
fn read_discrim(store: &ConfigStore, discrim: crate::tree::NodeId) -> (d: usize)
    requires
        store.wf(),
        store.contains(discrim),
        store.nodes@[discrim.0 as int].scalar matches Some(sf) && sf.metadata is Discrim,
    ensures
        d == crate::schema::discrim_of(*store, discrim),
        d < store.nodes@[discrim.0 as int].scalar->Some_0.metadata->Discrim_0.variants@.len(),
{
    proof {
        assert(crate::tree::node_ok(store.nodes@, discrim.0 as int));
    }
    let n = store.node(discrim);
    match &n.scalar {
        Some(sf) => match &sf.data.0 {
            ConfigValue::Discrim(d) => *d,
            _ => unreached(),
        },
        None => unreached(),
    }
}

/// Reads config data for consumption: the current value of every scalar
/// reachable under `h`, dispatching into the active variant at enums.
pub fn read(store: &ConfigStore, h: &SpawnNode) -> (r: Reader)
    requires
        store.wf(),
        handle_ok(*store, *h),
    ensures
        r@ == spec_read(*store, *h),
    decreases *h,
{
    match h {
        SpawnNode::Scalar(id) => {
            let n = store.node(*id);
            match &n.scalar {
                Some(sf) => Reader::Scalar(sf.data.0.duplicate()),
                None => unreached(),
            }
        },
        SpawnNode::Struct { node, fields } => {
            proof {
                crate::schema::lemma_handles_ok_all(*store, fields@);
            }
            let mut out: Vec<Reader> = Vec::new();
            let mut k: usize = 0;
            while k < fields.len()
                invariant
                    store.wf(),
                    *h == (SpawnNode::Struct { node: *node, fields: *fields }),
                    forall|j: int|
                        0 <= j < fields@.len() ==> #[trigger] handle_ok(*store, fields@[j]),
                    0 <= k <= fields@.len(),
                    out@.len() == k,
                    forall|j: int|
                        0 <= j < k ==> reader_view(#[trigger] out@[j]) == spec_read(
                            *store,
                            fields@[j],
                        ),
                decreases fields@.len() - k,
            {
                proof {
                    assert(decreases_to!(*h => (*h)->Struct_fields));
                    assert(decreases_to!(*fields => fields@[k as int]));
                }
                let sub = read(store, &fields[k]);
                out.push(sub);
                k = k + 1;
            }
            let r = Reader::Struct(out);
            proof {
                lemma_reader_views(out@);
                lemma_spec_read_list(*store, fields@);
                assert forall|j: int|
                    0 <= j < fields@.len() implies reader_views(out@)[j] == spec_read_list(
                    *store,
                    fields@,
                )[j] by {
                    assert(reader_views(out@)[j] == reader_view(out@[j]));
                    assert(spec_read_list(*store, fields@)[j] == spec_read(*store, fields@[j]));
                }
                assert(reader_views(out@) =~= spec_read_list(*store, fields@));
            }
            r
        },
        SpawnNode::Enum { node, discrim, variants } => {
            let d = read_discrim(store, *discrim);
            proof {
                assert(d < variants@.len());
            }
            let list = &variants[d];
            proof {
                crate::schema::lemma_handles_ok_matrix_all(*store, variants@);
                assert(handles_ok(*store, variants@[d as int]@));
                crate::schema::lemma_handles_ok_all(*store, variants@[d as int]@);
            }
            let mut out: Vec<Reader> = Vec::new();
            let mut k: usize = 0;
            while k < list.len()
                invariant
                    store.wf(),
                    *h == (SpawnNode::Enum { node: *node, discrim: *discrim, variants: *variants }),
                    forall|j: int|
                        0 <= j < variants@[d as int]@.len() ==> #[trigger] handle_ok(
                            *store,
                            variants@[d as int]@[j],
                        ),
                    d < variants@.len(),
                    *list == variants@[d as int],
                    0 <= k <= list@.len(),
                    out@.len() == k,
                    forall|j: int|
                        0 <= j < k ==> reader_view(#[trigger] out@[j]) == spec_read(
                            *store,
                            variants@[d as int]@[j],
                        ),
                decreases list@.len() - k,
            {
                proof {
                    assert(decreases_to!(*h => (*h)->Enum_variants));
                    assert(decreases_to!(*variants => variants@[d as int]));
                    assert(decreases_to!(variants@[d as int] => variants@[d as int]@[k as int]));
                }
                let sub = read(store, &list[k]);
                out.push(sub);
                k = k + 1;
            }
            let r = Reader::Enum { variant: d, fields: out };
            proof {
                lemma_reader_views(out@);
                lemma_spec_read_list(*store, variants@[d as int]@);
                assert forall|j: int|
                    0 <= j < variants@[d as int]@.len() implies reader_views(out@)[j]
                    == spec_read_list(*store, variants@[d as int]@)[j] by {
                    assert(reader_views(out@)[j] == reader_view(out@[j]));
                    assert(spec_read_list(*store, variants@[d as int]@)[j] == spec_read(
                        *store,
                        variants@[d as int]@[j],
                    ));
                }
                assert(reader_views(out@) =~= spec_read_list(*store, variants@[d as int]@));
            }
            r
        },
    }
}

/// Computes the change witness for the subtree under `h`.
pub fn changed(store: &ConfigStore, h: &SpawnNode) -> (r: Changed)
    requires
        store.wf(),
        handle_ok(*store, *h),
    ensures
        r@ == spec_changed(*store, *h),
    decreases *h,
{
    match h {
        SpawnNode::Scalar(id) => {
            let n = store.node(*id);
            Changed::Scalar(n.node.generation)
        },
        SpawnNode::Struct { node, fields } => {
            proof {
                crate::schema::lemma_handles_ok_all(*store, fields@);
            }
            let mut out: Vec<Changed> = Vec::new();
            let mut k: usize = 0;
            while k < fields.len()
                invariant
                    store.wf(),
                    *h == (SpawnNode::Struct { node: *node, fields: *fields }),
                    forall|j: int|
                        0 <= j < fields@.len() ==> #[trigger] handle_ok(*store, fields@[j]),
                    0 <= k <= fields@.len(),
                    out@.len() == k,
                    forall|j: int|
                        0 <= j < k ==> changed_view(#[trigger] out@[j]) == spec_changed(
                            *store,
                            fields@[j],
                        ),
                decreases fields@.len() - k,
            {
                proof {
                    assert(decreases_to!(*h => (*h)->Struct_fields));
                    assert(decreases_to!(*fields => fields@[k as int]));
                }
                let sub = changed(store, &fields[k]);
                out.push(sub);
                k = k + 1;
            }
            let r = Changed::Struct(out);
            proof {
                lemma_changed_views(out@);
                lemma_spec_changed_list(*store, fields@);
                assert forall|j: int|
                    0 <= j < fields@.len() implies changed_views(out@)[j] == spec_changed_list(
                    *store,
                    fields@,
                )[j] by {
                    assert(changed_views(out@)[j] == changed_view(out@[j]));
                    assert(spec_changed_list(*store, fields@)[j] == spec_changed(
                        *store,
                        fields@[j],
                    ));
                }
                assert(changed_views(out@) =~= spec_changed_list(*store, fields@));
            }
            r
        },
        SpawnNode::Enum { node, discrim, variants } => {
            let d = read_discrim(store, *discrim);
            proof {
                assert(d < variants@.len());
            }
            let list = &variants[d];
            proof {
                crate::schema::lemma_handles_ok_matrix_all(*store, variants@);
                assert(handles_ok(*store, variants@[d as int]@));
                crate::schema::lemma_handles_ok_all(*store, variants@[d as int]@);
            }
            let mut out: Vec<Changed> = Vec::new();
            let mut k: usize = 0;
            while k < list.len()
                invariant
                    store.wf(),
                    *h == (SpawnNode::Enum { node: *node, discrim: *discrim, variants: *variants }),
                    forall|j: int|
                        0 <= j < variants@[d as int]@.len() ==> #[trigger] handle_ok(
                            *store,
                            variants@[d as int]@[j],
                        ),
                    d < variants@.len(),
                    *list == variants@[d as int],
                    0 <= k <= list@.len(),
                    out@.len() == k,
                    forall|j: int|
                        0 <= j < k ==> changed_view(#[trigger] out@[j]) == spec_changed(
                            *store,
                            variants@[d as int]@[j],
                        ),
                decreases list@.len() - k,
            {
                proof {
                    assert(decreases_to!(*h => (*h)->Enum_variants));
                    assert(decreases_to!(*variants => variants@[d as int]));
                    assert(decreases_to!(variants@[d as int] => variants@[d as int]@[k as int]));
                }
                let sub = changed(store, &list[k]);
                out.push(sub);
                k = k + 1;
            }
            let r = Changed::Enum { variant: d, fields: out };
            proof {
                lemma_changed_views(out@);
                lemma_spec_changed_list(*store, variants@[d as int]@);
                assert forall|j: int|
                    0 <= j < variants@[d as int]@.len() implies changed_views(out@)[j]
                    == spec_changed_list(*store, variants@[d as int]@)[j] by {
                    assert(changed_views(out@)[j] == changed_view(out@[j]));
                    assert(spec_changed_list(*store, variants@[d as int]@)[j] == spec_changed(
                        *store,
                        variants@[d as int]@[j],
                    ));
                }
                assert(changed_views(out@) =~= spec_changed_list(*store, variants@[d as int]@));
            }
            r
        },
    }
}

impl Changed {
    /// Whether two witnesses are equal: witnesses are compared to decide
    /// whether the observed data has changed between two snapshots.
    pub fn same_as(&self, other: &Changed) -> (r: bool)
        ensures
            r == (self@ == other@),
        decreases *self,
    {
        match (self, other) {
            (Changed::Scalar(a), Changed::Scalar(b)) => a.0 == b.0,
            (Changed::Struct(a), Changed::Struct(b)) => {
                proof {
                    assert(decreases_to!(*self => (*self)->Struct_0));
                }
                let r = same_list(a, b);
                proof {
                    lemma_changed_views(a@);
                    lemma_changed_views(b@);
                    if r {
                        assert forall|j: int|
                            0 <= j < a@.len() implies changed_views(a@)[j] == changed_views(
                            b@,
                        )[j] by {
                            assert(changed_view(a@[j]) == changed_view(b@[j]));
                        }
                        assert(changed_views(a@) =~= changed_views(b@));
                    } else if a@.len() == b@.len() {
                        let j = choose|j: int|
                            0 <= j < a@.len() && changed_view(a@[j]) != changed_view(b@[j]);
                        assert(changed_views(a@)[j] != changed_views(b@)[j]);
                    }
                }
                r
            },
            (
                Changed::Enum { variant: va, fields: fa },
                Changed::Enum { variant: vb, fields: fb },
            ) => {
                if *va != *vb {
                    false
                } else {
                    proof {
                        assert(decreases_to!(*self => (*self)->Enum_fields));
                    }
                    let r = same_list(fa, fb);
                    proof {
                        lemma_changed_views(fa@);
                        lemma_changed_views(fb@);
                        if r {
                            assert forall|j: int|
                                0 <= j < fa@.len() implies changed_views(fa@)[j] == changed_views(
                                fb@,
                            )[j] by {
                                assert(changed_view(fa@[j]) == changed_view(fb@[j]));
                            }
                            assert(changed_views(fa@) =~= changed_views(fb@));
                        } else if fa@.len() == fb@.len() {
                            let j = choose|j: int|
                                0 <= j < fa@.len() && changed_view(fa@[j]) != changed_view(fb@[j]);
                            assert(changed_views(fa@)[j] != changed_views(fb@)[j]);
                        }
                    }
                    r
                }
            },
            (Changed::Scalar(_), Changed::Struct(_)) => false,
            (Changed::Scalar(_), Changed::Enum { .. }) => false,
            (Changed::Struct(_), Changed::Scalar(_)) => false,
            (Changed::Struct(_), Changed::Enum { .. }) => false,
            (Changed::Enum { .. }, Changed::Scalar(_)) => false,
            (Changed::Enum { .. }, Changed::Struct(_)) => false,
        }
    }
}

/// Whether two witness lists are element-wise equal.
fn same_list(a: &Vec<Changed>, b: &Vec<Changed>) -> (r: bool)
    ensures
        r == (a@.len() == b@.len() && (forall|j: int|
            0 <= j < a@.len() ==> changed_view(#[trigger] a@[j]) == changed_view(b@[j]))),
    decreases *a,
{
    if a.len() != b.len() {
        return false;
    }
    let mut k: usize = 0;
    while k < a.len()
        invariant
            a@.len() == b@.len(),
            0 <= k <= a@.len(),
            forall|j: int| 0 <= j < k ==> changed_view(#[trigger] a@[j]) == changed_view(b@[j]),
        decreases a@.len() - k,
    {
        proof {
            assert(decreases_to!(*a => a@));
            assert(decreases_to!(a@ => a@[k as int]));
        }
        if !a[k].same_as(&b[k]) {
            return false;
        }
        k = k + 1;
    }
    true
}


/// Access to a registered tree of config fields: a store and the spawn
/// handle of the subtree being observed.
pub struct ReadConfig<'a> {
    /// The store the tree was spawned into.
    pub store: &'a ConfigStore,
    /// The spawn handle of the observed subtree.
    pub handle: &'a SpawnNode,
}

impl<'a> ReadConfig<'a> {
    /// Reads the config field from the store.
    pub fn read(&self) -> (r: Reader)
        requires
            self.store.wf(),
            handle_ok(*self.store, *self.handle),
        ensures
            r@ == spec_read(*self.store, *self.handle),
    {
        read(self.store, self.handle)
    }

    /// Returns a value that changes when the config field is modified.
    pub fn changed(&self) -> (r: Changed)
        requires
            self.store.wf(),
            handle_ok(*self.store, *self.handle),
        ensures
            r@ == spec_changed(*self.store, *self.handle),
    {
        changed(self.store, self.handle)
    }
}

/// Access to a tree of config fields that maintains a last-seen witness to
/// detect changes between checks.
pub struct ReadConfigChange {
    /// The witness observed at the previous check, if any.
    pub last_value: Option<Changed>,
}

impl ReadConfigChange {
    /// A tracker that has not observed any witness yet.
    pub fn new() -> (r: Self)
        ensures
            r.last_value is None,
    {
        ReadConfigChange { last_value: None }
    }

    /// Reads the config field from the store.
    pub fn read(&self, store: &ConfigStore, h: &SpawnNode) -> (r: Reader)
        requires
            store.wf(),
            handle_ok(*store, *h),
        ensures
            r@ == spec_read(*store, *h),
    {
        read(store, h)
    }

    /// Returns whether the config field changed since the last check, and
    /// remembers the current witness.
    pub fn consume_change(&mut self, store: &ConfigStore, h: &SpawnNode) -> (r: bool)
        requires
            store.wf(),
            handle_ok(*store, *h),
        ensures
            r == (match old(self).last_value {
                None => true,
                Some(p) => changed_view(p) != spec_changed(*store, *h),
            }),
            final(self).last_value matches Some(c) && changed_view(c) == spec_changed(*store, *h),
    {
        let cur = changed(store, h);
        let is_new = match &self.last_value {
            None => true,
            Some(p) => !p.same_as(&cur),
        };
        if is_new {
            self.last_value = Some(cur);
        }
        is_new
    }
}

/// A store `s2` that equals `s1` except that the non-discriminant scalar node
/// `n` was overwritten and its generation incremented.
pub open spec fn scalar_edited(s1: ConfigStore, s2: ConfigStore, n: crate::tree::NodeId) -> bool {
    &&& s1.nodes@.len() == s2.nodes@.len()
    &&& n.0 < s1.nodes@.len()
    &&& forall|j: int|
        0 <= j < s1.nodes@.len() && j != n.0 ==> (#[trigger] s2.nodes@[j]) == s1.nodes@[j]
    &&& s1.nodes@[n.0 as int].scalar is Some
    &&& !(s1.nodes@[n.0 as int].scalar->Some_0.metadata is Discrim)
    &&& s2.nodes@[n.0 as int].scalar is Some
    &&& s2.nodes@[n.0 as int].scalar->Some_0.metadata == s1.nodes@[n.0 as int].scalar->Some_0.metadata
    &&& s2.nodes@[n.0 as int].node.generation.0 == s1.nodes@[n.0 as int].node.generation.0 + 1
}

/// Whether the scalar node `n` lies under `h` on the currently active path:
/// as one of a struct's fields, or inside the active variant of an enum.
pub open spec fn on_active_path(store: ConfigStore, h: SpawnNode, n: crate::tree::NodeId) -> bool
    decreases h,
{
    match h {
        SpawnNode::Scalar(id) => id == n,
        SpawnNode::Struct { node, fields } => active_in_list(store, fields@, n),
        SpawnNode::Enum { node, discrim, variants } => {
            let d = crate::schema::discrim_of(store, discrim);
            d < variants@.len() && active_in_list(store, variants@[d as int]@, n)
        },
    }
}

/// Whether `n` lies on the active path under some handle of the list.
pub open spec fn active_in_list(
    store: ConfigStore,
    hs: Seq<SpawnNode>,
    n: crate::tree::NodeId,
) -> bool
    decreases hs,
{
    hs.len() > 0 && (active_in_list(store, hs.drop_last(), n) || on_active_path(
        store,
        hs.last(),
        n,
    ))
}

/// Two reads without an intervening write yield equal witnesses: the witness
/// is a function of the store and the handle alone.
pub proof fn lemma_changed_stable(store: ConfigStore, h: SpawnNode, w1: Changed, w2: Changed)
    requires
        changed_view(w1) == spec_changed(store, h),
        changed_view(w2) == spec_changed(store, h),
    ensures
        changed_view(w1) == changed_view(w2),
{
}

/// After a scalar mutation that increments its node's generation, the node's
/// own witness and the aggregated witness of every composite it lies under on
/// the active path differ from their prior snapshots.
pub proof fn lemma_edit_changes_witness(
    s1: ConfigStore,
    s2: ConfigStore,
    h: SpawnNode,
    n: crate::tree::NodeId,
)
    requires
        s1.wf(),
        handle_ok(s1, h),
        scalar_edited(s1, s2, n),
        on_active_path(s1, h, n),
    ensures
        spec_changed(s2, h) != spec_changed(s1, h),
    decreases h,
{
    match h {
        SpawnNode::Scalar(id) => {
            assert(id == n);
        },
        SpawnNode::Struct { node, fields } => {
            lemma_edit_changes_list(s1, s2, fields@, n);
        },
        SpawnNode::Enum { node, discrim, variants } => {
            // the discriminant is a discriminant node, the edited node is not
            assert(crate::tree::node_ok(s1.nodes@, discrim.0 as int));
            assert(discrim != n);
            assert(s2.nodes@[discrim.0 as int] == s1.nodes@[discrim.0 as int]);
            let d = crate::schema::discrim_of(s1, discrim);
            assert(crate::schema::discrim_of(s2, discrim) == d);
            crate::schema::lemma_handles_ok_matrix_all(s1, variants@);
            assert(handles_ok(s1, variants@[d as int]@));
            lemma_edit_changes_list(s1, s2, variants@[d as int]@, n);
        },
    }
}

/// List version of [`lemma_edit_changes_witness`].
proof fn lemma_edit_changes_list(
    s1: ConfigStore,
    s2: ConfigStore,
    hs: Seq<SpawnNode>,
    n: crate::tree::NodeId,
)
    requires
        s1.wf(),
        handles_ok(s1, hs),
        scalar_edited(s1, s2, n),
        active_in_list(s1, hs, n),
    ensures
        spec_changed_list(s2, hs) != spec_changed_list(s1, hs),
    decreases hs,
{
    lemma_spec_changed_list(s1, hs);
    lemma_spec_changed_list(s2, hs);
    if active_in_list(s1, hs.drop_last(), n) {
        lemma_edit_changes_list(s1, s2, hs.drop_last(), n);
        let l1 = spec_changed_list(s1, hs.drop_last());
        let l2 = spec_changed_list(s2, hs.drop_last());
        lemma_spec_changed_list(s1, hs.drop_last());
        lemma_spec_changed_list(s2, hs.drop_last());
        assert(l1.len() == l2.len());
        assert(exists|j: int| 0 <= j < l1.len() && l1[j] != l2[j]) by {
            if forall|j: int| 0 <= j < l1.len() ==> #[trigger] l1[j] == l2[j] {
                assert(l1 =~= l2);
            }
        }
        let j = choose|j: int| 0 <= j < l1.len() && l1[j] != l2[j];
        assert(hs.drop_last()[j] == hs[j]);
        assert(spec_changed_list(s1, hs)[j] != spec_changed_list(s2, hs)[j]);
    } else {
        lemma_edit_changes_witness(s1, s2, hs.last(), n);
        let j = hs.len() - 1;
        assert(spec_changed_list(s1, hs)[j] != spec_changed_list(s2, hs)[j]);
    }
}

/// A store `s2` that equals `s1` except that the discriminant node `dn` was
/// switched to a different active variant.
pub open spec fn discrim_switched(
    s1: ConfigStore,
    s2: ConfigStore,
    dn: crate::tree::NodeId,
) -> bool {
    &&& s1.nodes@.len() == s2.nodes@.len()
    &&& dn.0 < s1.nodes@.len()
    &&& forall|j: int|
        0 <= j < s1.nodes@.len() && j != dn.0 ==> (#[trigger] s2.nodes@[j]) == s1.nodes@[j]
    &&& s1.nodes@[dn.0 as int].scalar is Some
    &&& s1.nodes@[dn.0 as int].scalar->Some_0.metadata is Discrim
    &&& s2.nodes@[dn.0 as int].scalar is Some
    &&& s2.nodes@[dn.0 as int].scalar->Some_0.metadata == s1.nodes@[dn.0 as int].scalar->Some_0.metadata
    &&& crate::schema::discrim_of(s2, dn) != crate::schema::discrim_of(s1, dn)
}

/// Whether the discriminant node `dn` governs a subtree of `h` reachable on
/// the currently active path.
pub open spec fn discrim_on_active_path(
    store: ConfigStore,
    h: SpawnNode,
    dn: crate::tree::NodeId,
) -> bool
    decreases h,
{
    match h {
        SpawnNode::Scalar(id) => false,
        SpawnNode::Struct { node, fields } => discrim_in_list(store, fields@, dn),
        SpawnNode::Enum { node, discrim, variants } => {
            let d = crate::schema::discrim_of(store, discrim);
            discrim == dn || (d < variants@.len() && discrim_in_list(
                store,
                variants@[d as int]@,
                dn,
            ))
        },
    }
}

/// Whether `dn` governs a subtree under some handle of the list.
pub open spec fn discrim_in_list(
    store: ConfigStore,
    hs: Seq<SpawnNode>,
    dn: crate::tree::NodeId,
) -> bool
    decreases hs,
{
    hs.len() > 0 && (discrim_in_list(store, hs.drop_last(), dn) || discrim_on_active_path(
        store,
        hs.last(),
        dn,
    ))
}

/// Switching an enum's active variant changes the witness of every field the
/// enum lies under on the active path, even when no scalar value inside any
/// variant was touched.
pub proof fn lemma_switch_changes_witness(
    s1: ConfigStore,
    s2: ConfigStore,
    h: SpawnNode,
    dn: crate::tree::NodeId,
)
    requires
        s1.wf(),
        handle_ok(s1, h),
        discrim_switched(s1, s2, dn),
        discrim_on_active_path(s1, h, dn),
    ensures
        spec_changed(s2, h) != spec_changed(s1, h),
    decreases h,
{
    match h {
        SpawnNode::Scalar(id) => {},
        SpawnNode::Struct { node, fields } => {
            lemma_switch_changes_list(s1, s2, fields@, dn);
        },
        SpawnNode::Enum { node, discrim, variants } => {
            if discrim == dn {
                assert(crate::schema::discrim_of(s2, discrim) != crate::schema::discrim_of(
                    s1,
                    discrim,
                ));
            } else {
                assert(s2.nodes@[discrim.0 as int] == s1.nodes@[discrim.0 as int]);
                let d = crate::schema::discrim_of(s1, discrim);
                assert(crate::schema::discrim_of(s2, discrim) == d);
                crate::schema::lemma_handles_ok_matrix_all(s1, variants@);
                assert(handles_ok(s1, variants@[d as int]@));
                lemma_switch_changes_list(s1, s2, variants@[d as int]@, dn);
            }
        },
    }
}

/// List version of [`lemma_switch_changes_witness`].
proof fn lemma_switch_changes_list(
    s1: ConfigStore,
    s2: ConfigStore,
    hs: Seq<SpawnNode>,
    dn: crate::tree::NodeId,
)
    requires
        s1.wf(),
        handles_ok(s1, hs),
        discrim_switched(s1, s2, dn),
        discrim_in_list(s1, hs, dn),
    ensures
        spec_changed_list(s2, hs) != spec_changed_list(s1, hs),
    decreases hs,
{
    lemma_spec_changed_list(s1, hs);
    lemma_spec_changed_list(s2, hs);
    if discrim_in_list(s1, hs.drop_last(), dn) {
        lemma_switch_changes_list(s1, s2, hs.drop_last(), dn);
        let l1 = spec_changed_list(s1, hs.drop_last());
        let l2 = spec_changed_list(s2, hs.drop_last());
        lemma_spec_changed_list(s1, hs.drop_last());
        lemma_spec_changed_list(s2, hs.drop_last());
        assert(l1.len() == l2.len());
        assert(exists|j: int| 0 <= j < l1.len() && l1[j] != l2[j]) by {
            if forall|j: int| 0 <= j < l1.len() ==> #[trigger] l1[j] == l2[j] {
                assert(l1 =~= l2);
            }
        }
        let j = choose|j: int| 0 <= j < l1.len() && l1[j] != l2[j];
        assert(hs.drop_last()[j] == hs[j]);
        assert(spec_changed_list(s1, hs)[j] != spec_changed_list(s2, hs)[j]);
    } else {
        lemma_switch_changes_witness(s1, s2, hs.last(), dn);
        let j = hs.len() - 1;
        assert(spec_changed_list(s1, hs)[j] != spec_changed_list(s2, hs)[j]);
    }
}


/// What reading a freshly spawned schema yields: every scalar at its
/// metadata default, every enum at its default variant.
pub open spec fn default_read(s: crate::schema::Schema) -> ReadVal
    decreases s,
{
    match s {
        crate::schema::Schema::Scalar(m) => ReadVal::Scalar(crate::schema::default_value(m)),
        crate::schema::Schema::Struct(st) => ReadVal::Struct(default_read_list(st.fields@)),
        crate::schema::Schema::Enum(e) => ReadVal::Enum {
            variant: e.default,
            fields: if e.default < e.variants@.len() {
                default_read_list(e.variants@[e.default as int].fields@)
            } else {
                Seq::empty()
            },
        },
    }
}

/// The default readings of a field list.
pub open spec fn default_read_list(fs: Seq<crate::schema::SchemaField>) -> Seq<ReadVal>
    decreases fs,
{
    if fs.len() == 0 {
        Seq::empty()
    } else {
        default_read_list(fs.drop_last()).push(default_read(fs.last().schema))
    }
}

/// `default_read_list` maps the field list element-wise.
pub proof fn lemma_default_read_list(fs: Seq<crate::schema::SchemaField>)
    ensures
        default_read_list(fs).len() == fs.len(),
        forall|k: int|
            0 <= k < fs.len() ==> default_read_list(fs)[k] == default_read(
                (#[trigger] fs[k]).schema,
            ),
    decreases fs.len(),
{
    if fs.len() > 0 {
        lemma_default_read_list(fs.drop_last());
        assert forall|k: int| 0 <= k < fs.len() implies default_read_list(fs)[k] == default_read(
            (#[trigger] fs[k]).schema,
        ) by {
            if k < fs.len() - 1 {
                assert(fs.drop_last()[k] == fs[k]);
            }
        }
    }
}

/// Each field of a spawned field list was spawned below its own segment.
proof fn lemma_spawned_fields_index(
    store: ConfigStore,
    hs: Seq<SpawnNode>,
    fs: Seq<crate::schema::SchemaField>,
    base: Seq<Seq<char>>,
    prefix: Option<Seq<char>>,
    dep: Option<crate::tree::ConditionalRelevance>,
    managers: crate::manager::ManagerSet,
    k: int,
)
    requires
        crate::spawn::spawned_fields(store, hs, fs, base, prefix, dep, managers),
        0 <= k < hs.len(),
    ensures
        crate::spawn::spawned(
            store,
            hs[k],
            fs[k].schema,
            base.push(crate::schema::field_seg(prefix, fs[k].key@)),
            dep,
            managers,
        ),
    decreases hs,
{
    if k < hs.len() - 1 {
        lemma_spawned_fields_index(
            store,
            hs.drop_last(),
            fs.drop_last(),
            base,
            prefix,
            dep,
            managers,
            k,
        );
        assert(hs.drop_last()[k] == hs[k]);
        assert(fs.drop_last()[k] == fs[k]);
    }
}

/// Each variant of a spawned enum was spawned with its own relevance link.
proof fn lemma_spawned_variants_index(
    store: ConfigStore,
    vss: Seq<Vec<SpawnNode>>,
    evs: Seq<crate::schema::EnumVariant>,
    base: Seq<Seq<char>>,
    discrim: crate::tree::NodeId,
    managers: crate::manager::ManagerSet,
    v: int,
)
    requires
        crate::spawn::spawned_variants(store, vss, evs, base, discrim, managers),
        0 <= v < vss.len(),
    ensures
        crate::spawn::spawned_fields(
            store,
            vss[v]@,
            evs[v].fields@,
            base,
            Some(evs[v].name@),
            Some(
                crate::tree::ConditionalRelevance {
                    dependency: discrim,
                    required_variant: v as usize,
                },
            ),
            managers,
        ),
    decreases vss,
{
    if v < vss.len() - 1 {
        lemma_spawned_variants_index(
            store,
            vss.drop_last(),
            evs.drop_last(),
            base,
            discrim,
            managers,
            v,
        );
        assert(vss.drop_last()[v] == vss[v]);
        assert(evs.drop_last()[v] == evs[v]);
    } else {
        assert(vss.last() == vss[v]);
        assert(evs.last() == evs[v]);
    }
}

/// A freshly spawned tree reads as its schema's defaults: every scalar at
/// its metadata default, every enum dispatching into its default variant.
pub proof fn lemma_spawn_reads_defaults(
    store: ConfigStore,
    h: SpawnNode,
    s: crate::schema::Schema,
    path: Seq<Seq<char>>,
    dep: Option<crate::tree::ConditionalRelevance>,
    managers: crate::manager::ManagerSet,
)
    requires
        store.wf(),
        crate::spawn::spawned(store, h, s, path, dep, managers),
    ensures
        spec_read(store, h) == default_read(s),
    decreases h,
{
    match (h, s) {
        (SpawnNode::Scalar(id), crate::schema::Schema::Scalar(m)) => {},
        (SpawnNode::Struct { node, fields }, crate::schema::Schema::Struct(st)) => {
            lemma_spec_read_list(store, fields@);
            lemma_default_read_list(st.fields@);
            assert forall|k: int| 0 <= k < fields@.len() implies spec_read_list(store, fields@)[k]
                == default_read_list(st.fields@)[k] by {
                lemma_spawned_fields_index(
                    store,
                    fields@,
                    st.fields@,
                    path,
                    None,
                    None,
                    managers,
                    k,
                );
                lemma_spawn_reads_defaults(
                    store,
                    fields@[k],
                    st.fields@[k].schema,
                    path.push(crate::schema::field_seg(None, st.fields@[k].key@)),
                    None,
                    managers,
                );
            }
            assert(spec_read_list(store, fields@) =~= default_read_list(st.fields@));
        },
        (SpawnNode::Enum { node, discrim, variants }, crate::schema::Schema::Enum(e)) => {
            assert(crate::tree::node_ok(store.nodes@, discrim.0 as int));
            let dm = store.nodes@[discrim.0 as int].scalar->Some_0.metadata->Discrim_0;
            assert(dm.variants.deep_view().len() == dm.variants@.len());
            assert(crate::schema::discrim_of(store, discrim) == e.default);
            assert(e.default < variants@.len());
            lemma_spawned_variants_index(
                store,
                variants@,
                e.variants@,
                path,
                discrim,
                managers,
                e.default as int,
            );
            let hs = variants@[e.default as int]@;
            let fs = e.variants@[e.default as int].fields@;
            lemma_spec_read_list(store, hs);
            lemma_default_read_list(fs);
            let vdep = Some(
                crate::tree::ConditionalRelevance {
                    dependency: discrim,
                    required_variant: e.default,
                },
            );
            assert forall|k: int| 0 <= k < hs.len() implies spec_read_list(store, hs)[k]
                == default_read_list(fs)[k] by {
                lemma_spawned_fields_index(
                    store,
                    hs,
                    fs,
                    path,
                    Some(e.variants@[e.default as int].name@),
                    vdep,
                    managers,
                    k,
                );
                lemma_spawn_reads_defaults(
                    store,
                    hs[k],
                    fs[k].schema,
                    path.push(
                        crate::schema::field_seg(
                            Some(e.variants@[e.default as int].name@),
                            fs[k].key@,
                        ),
                    ),
                    vdep,
                    managers,
                );
            }
            assert(spec_read_list(store, hs) =~= default_read_list(fs));
        },
        _ => {},
    }
}
} // verus!
