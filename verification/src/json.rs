//! Trusted boundary to `serde_json`: type declarations and wrappers for the
//! flat path-keyed JSON object that the codec reads and writes.

use vstd::prelude::*;

verus! {

#[verifier::external_type_specification]
#[verifier::external_body]
pub struct ExNumber(serde_json::Number);

#[verifier::external_type_specification]
#[verifier::external_body]
pub struct ExValue(serde_json::Value);

#[verifier::external_type_specification]
#[verifier::external_body]
#[verifier::reject_recursive_types(K)]
#[verifier::reject_recursive_types(V)]
pub struct ExJsonMap<K, V>(serde_json::Map<K, V>);

#[verifier::external_type_specification]
#[verifier::external_body]
pub struct ExJsonError(serde_json::Error);

// Relies on serde_json::Number deriving Clone: the clone is the same number.
pub assume_specification[ <serde_json::Number as Clone>::clone ](
    n: &serde_json::Number,
) -> (r: serde_json::Number)
    ensures
        r == *n,
;

/// The integer a JSON number represents, if it is an integer in `i64` range.
pub uninterp spec fn num_as_i64(n: serde_json::Number) -> Option<i64>;

/// The JSON number representing an integer.
pub uninterp spec fn num_of_i64(i: i64) -> serde_json::Number;

/// Relies on serde_json::Number::as_i64: the represented integer, if the
/// number is an integer in range; the result depends on the number alone.
#[verifier::external_body]
pub fn number_as_i64(n: &serde_json::Number) -> (r: Option<i64>)
    ensures
        r == num_as_i64(*n),
{
    n.as_i64()
}

/// Relies on From<i64> for serde_json::Number: an integer converts to the
/// JSON number representing it, and as_i64 reads it back.
#[verifier::external_body]
pub fn number_from_i64(i: i64) -> (r: serde_json::Number)
    ensures
        r == num_of_i64(i),
        num_as_i64(r) == Some(i),
{
    serde_json::Number::from(i)
}


/// The contents of a JSON object map, in insertion order, as wire values.
pub uninterp spec fn json_obj_list(m: serde_json::Map<String, serde_json::Value>) -> Seq<
    (Seq<char>, crate::codec::WireVal),
>;

/// The compact JSON text of an object with the given entries, in order.
pub uninterp spec fn json_text_of(es: Seq<(Seq<char>, crate::codec::WireVal)>) -> Seq<char>;

/// The pretty-printed JSON text of an object with the given entries.
pub uninterp spec fn json_text_pretty_of(es: Seq<(Seq<char>, crate::codec::WireVal)>) -> Seq<
    char,
>;

/// What parsing a text as a JSON object yields: its entries in input order,
/// or nothing if the text is not a JSON object.
pub uninterp spec fn json_parse(s: Seq<char>) -> Option<Seq<(Seq<char>, crate::codec::WireVal)>>;

/// The wire value a JSON value maps to.
pub uninterp spec fn wire_val_of(v: serde_json::Value) -> crate::codec::WireVal;

/// How a wire value appears among a JSON object's entries: an integer is
/// stored as the JSON number representing it; every other value keeps its
/// shape.
pub open spec fn wire_norm(w: crate::codec::WireVal) -> crate::codec::WireVal {
    match w {
        crate::codec::WireVal::Int(i) => crate::codec::WireVal::Num(num_of_i64(i)),
        x => x,
    }
}

/// An entry list with every value in its JSON-object form.
pub open spec fn norm_entries(es: Seq<(Seq<char>, crate::codec::WireVal)>) -> Seq<
    (Seq<char>, crate::codec::WireVal),
> {
    Seq::new(es.len(), |k: int| (es[k].0, wire_norm(es[k].1)))
}

/// Whether every entry value is a number, boolean or string.  For an object
/// of such values the entry list determines the stored JSON values, so its
/// serialized text is a function of the entries alone; null, array and
/// object values carry more than their entry records.
pub open spec fn obj_values_scalar(es: Seq<(Seq<char>, crate::codec::WireVal)>) -> bool {
    forall|k: int|
        0 <= k < es.len() ==> ((#[trigger] es[k]).1 is Num || es[k].1 is Bool || es[k].1 is Text)
}

/// Relies on serde_json::Map::new: a fresh object holds no entries.
#[verifier::external_body]
pub fn new_obj() -> (m: serde_json::Map<String, serde_json::Value>)
    ensures
        json_obj_list(m) == Seq::<(Seq<char>, crate::codec::WireVal)>::empty(),
{
    serde_json::Map::new()
}

/// Relies on serde_json::Map::insert and From<i64> for Value: inserting a
/// fresh key appends the entry, holding the JSON number that represents the
/// integer; the map is built to preserve insertion order.
#[verifier::external_body]
pub fn obj_insert_i64(m: &mut serde_json::Map<String, serde_json::Value>, k: &str, v: i64)
    ensures
        (forall|j: int|
            0 <= j < json_obj_list(*old(m)).len() ==> (#[trigger] json_obj_list(*old(m))[j]).0
                != k@) ==> json_obj_list(*final(m)) == json_obj_list(*old(m)).push(
            (k@, crate::codec::WireVal::Num(num_of_i64(v))),
        ),
{
    m.insert(k.to_owned(), serde_json::Value::from(v));
}

/// Relies on serde_json::Map::insert and Value::Number: inserting a fresh
/// key appends the entry.
#[verifier::external_body]
pub fn obj_insert_num(
    m: &mut serde_json::Map<String, serde_json::Value>,
    k: &str,
    v: serde_json::Number,
)
    ensures
        (forall|j: int|
            0 <= j < json_obj_list(*old(m)).len() ==> (#[trigger] json_obj_list(*old(m))[j]).0
                != k@) ==> json_obj_list(*final(m)) == json_obj_list(*old(m)).push(
            (k@, crate::codec::WireVal::Num(v)),
        ),
{
    m.insert(k.to_owned(), serde_json::Value::Number(v));
}

/// Relies on serde_json::Map::insert and Value::Bool: inserting a fresh key
/// appends the entry.
#[verifier::external_body]
pub fn obj_insert_bool(m: &mut serde_json::Map<String, serde_json::Value>, k: &str, v: bool)
    ensures
        (forall|j: int|
            0 <= j < json_obj_list(*old(m)).len() ==> (#[trigger] json_obj_list(*old(m))[j]).0
                != k@) ==> json_obj_list(*final(m)) == json_obj_list(*old(m)).push(
            (k@, crate::codec::WireVal::Bool(v)),
        ),
{
    m.insert(k.to_owned(), serde_json::Value::Bool(v));
}

/// Relies on serde_json::Map::insert and Value::String: inserting a fresh
/// key appends the entry.
#[verifier::external_body]
pub fn obj_insert_str(m: &mut serde_json::Map<String, serde_json::Value>, k: &str, v: &str)
    ensures
        (forall|j: int|
            0 <= j < json_obj_list(*old(m)).len() ==> (#[trigger] json_obj_list(*old(m))[j]).0
                != k@) ==> json_obj_list(*final(m)) == json_obj_list(*old(m)).push(
            (k@, crate::codec::WireVal::Text(v@)),
        ),
{
    m.insert(k.to_owned(), serde_json::Value::String(v.to_owned()));
}

/// Relies on serde_json::to_string: serializing an object map cannot fail,
/// and for an object holding only number, boolean and string values — whose
/// entry list determines the stored document — the text is a function of the
/// entries alone.
#[verifier::external_body]
pub fn obj_to_string(m: &serde_json::Map<String, serde_json::Value>) -> (r: Result<
    String,
    serde_json::Error,
>)
    ensures
        r is Ok,
        obj_values_scalar(json_obj_list(*m)) ==> r->Ok_0@ == json_text_of(json_obj_list(*m)),
{
    serde_json::to_string(m)
}

/// Relies on serde_json::to_string_pretty: serializing an object map cannot
/// fail, and for an object holding only number, boolean and string values
/// the text is a function of the entries alone.
#[verifier::external_body]
pub fn obj_to_string_pretty(m: &serde_json::Map<String, serde_json::Value>) -> (r: Result<
    String,
    serde_json::Error,
>)
    ensures
        r is Ok,
        obj_values_scalar(json_obj_list(*m)) ==> r->Ok_0@ == json_text_pretty_of(
            json_obj_list(*m),
        ),
{
    serde_json::to_string_pretty(m)
}

/// Relies on serde_json::from_str: a text parses as an object exactly when
/// it is one, and the parsed map holds the text's entries in input order.
#[verifier::external_body]
pub fn parse_obj(s: &str) -> (r: Result<
    serde_json::Map<String, serde_json::Value>,
    serde_json::Error,
>)
    ensures
        r is Ok <==> json_parse(s@) is Some,
        r is Ok ==> json_obj_list(r->Ok_0) == json_parse(s@)->Some_0,
{
    serde_json::from_str(s)
}

/// Relies on serde_json::Map::iter: hands the entries out in order, each
/// key and value cloned.
#[verifier::external_body]
pub fn obj_entries(m: &serde_json::Map<String, serde_json::Value>) -> (r: Vec<
    (String, serde_json::Value),
>)
    ensures
        r@.len() == json_obj_list(*m).len(),
        forall|j: int|
            0 <= j < r@.len() ==> (#[trigger] r@[j]).0@ == json_obj_list(*m)[j].0 && wire_val_of(
                r@[j].1,
            ) == json_obj_list(*m)[j].1,
{
    m.iter().map(|(k, v)| (k.clone(), v.clone())).collect()
}

/// Relies on the serde_json::Value variants: maps each onto its wire value,
/// one arm per variant; arrays, objects and null carry no scalar.
#[verifier::external_body]
pub fn value_to_wire(v: &serde_json::Value) -> (r: crate::codec::WireValue)
    ensures
        r@ == wire_val_of(*v),
{
    match v {
        serde_json::Value::Null => crate::codec::WireValue::Other,
        serde_json::Value::Bool(b) => crate::codec::WireValue::Bool(*b),
        serde_json::Value::Number(n) => crate::codec::WireValue::Num(n.clone()),
        serde_json::Value::String(s) => crate::codec::WireValue::Text(s.clone()),
        serde_json::Value::Array(_) => crate::codec::WireValue::Other,
        serde_json::Value::Object(_) => crate::codec::WireValue::Other,
    }
}


/// Format choices for the JSON codec: compact or pretty-printed output.
pub struct JsonAdapter {
    /// Whether serialized output is pretty-printed.
    pub pretty: bool,
}

/// The serde codec manager: serializes every codec-managed scalar node to a
/// flat path-keyed JSON object, and loads such objects back.
pub struct Serde {
    /// The format adapter.
    pub adapter: JsonAdapter,
}

impl Serde {
    /// Creates a codec manager with the given adapter.
    pub fn new_with_adapter(adapter: JsonAdapter) -> (r: Serde)
        ensures
            r.adapter == adapter,
    {
        Serde { adapter }
    }

    /// Serializes all config data of the store to the flat path-keyed map:
    /// one entry per codec-managed scalar node, sorted by key.
    pub fn serialize_all(&self, store: &crate::tree::ConfigStore) -> (r: Vec<
        (String, crate::codec::WireValue),
    >)
        requires
            store.wf(),
        ensures
            crate::codec::entries_view(r@).to_multiset() == crate::codec::scan_spec(
                store.nodes@,
                store.nodes@.len() as int,
            ).to_multiset(),
            crate::codec::entries_sorted(crate::codec::entries_view(r@)),
    {
        crate::codec::serialize_all(store)
    }

    /// Serializes all codec-managed scalar nodes of the store to JSON text:
    /// the flat map of `serialize_all`, as one JSON object, with integer
    /// values stored as the JSON numbers representing them.
    pub fn to_json_string(&self, store: &crate::tree::ConfigStore) -> (r: String)
        requires
            store.wf(),
        ensures
            exists|es: Seq<(Seq<char>, crate::codec::WireVal)>|
                #![trigger es.to_multiset()]
                {
                    &&& es.to_multiset() == crate::codec::scan_spec(
                        store.nodes@,
                        store.nodes@.len() as int,
                    ).to_multiset()
                    &&& crate::codec::entries_sorted(es)
                    &&& r@ == (if self.adapter.pretty {
                        json_text_pretty_of(norm_entries(es))
                    } else {
                        json_text_of(norm_entries(es))
                    })
                },
    {
        let entries = crate::codec::serialize_all(store);
        let ghost ev = crate::codec::entries_view(entries@);
        let mut m = new_obj();
        let mut k: usize = 0;
        let ghost nv = norm_entries(ev);
        proof {
            assert(json_obj_list(m) =~= nv.take(0));
        }
        while k < entries.len()
            invariant
                0 <= k <= entries@.len(),
                ev == crate::codec::entries_view(entries@),
                ev.len() == entries@.len(),
                forall|i: int|
                    0 <= i < entries@.len() ==> crate::codec::entry_faithful(
                        store.nodes@,
                        #[trigger] ev[i],
                    ),
                forall|a: int, b: int| 0 <= a < b < entries@.len() ==> ev[a].0 != ev[b].0,
                nv == norm_entries(ev),
                json_obj_list(m) == nv.take(k as int),
            decreases entries@.len() - k,
        {
            let e = &entries[k];
            proof {
                assert(ev[k as int] == (entries@[k as int].0@, entries@[k as int].1@));
                assert(crate::codec::entry_faithful(store.nodes@, ev[k as int]));
                assert(nv[k as int] == (ev[k as int].0, wire_norm(ev[k as int].1)));
                assert forall|j: int|
                    0 <= j < json_obj_list(m).len() implies (#[trigger] json_obj_list(m)[j]).0
                    != e.0@ by {
                    assert(json_obj_list(m)[j] == nv[j]);
                    assert(nv[j].0 == ev[j].0);
                }
            }
            let ghost before = json_obj_list(m);
            match &e.1 {
                crate::codec::WireValue::Int(i) => {
                    obj_insert_i64(&mut m, e.0.as_str(), *i);
                },
                crate::codec::WireValue::Num(n) => {
                    obj_insert_num(&mut m, e.0.as_str(), n.clone());
                },
                crate::codec::WireValue::Bool(b) => {
                    obj_insert_bool(&mut m, e.0.as_str(), *b);
                },
                crate::codec::WireValue::Text(s) => {
                    obj_insert_str(&mut m, e.0.as_str(), s.as_str());
                },
                crate::codec::WireValue::Other => {
                    proof {
                        let j = choose|j: int|
                            crate::codec::is_serialized(store.nodes@, j) && ev[k as int]
                                == crate::codec::entry_of(store.nodes@, j);
                        assert(ev[k as int].1 == crate::codec::wire_of_scalar(
                            store.nodes@[j].scalar->Some_0.metadata,
                            store.nodes@[j].scalar->Some_0.data.0@,
                        ));
                        assert(false);
                    }
                },
            }
            proof {
                assert(json_obj_list(m) == before.push(nv[k as int]));
                assert(json_obj_list(m) =~= nv.take(k + 1));
            }
            k = k + 1;
        }
        proof {
            assert(nv.take(nv.len() as int) =~= nv);
            assert(json_obj_list(m) == nv);
            // every serialized value is a scalar, so the object's entries
            // determine its text
            assert forall|j: int|
                0 <= j < nv.len() implies ((#[trigger] nv[j]).1 is Num || nv[j].1 is Bool
                || nv[j].1 is Text) by {
                assert(crate::codec::entry_faithful(store.nodes@, ev[j]));
                let w = choose|w: int|
                    crate::codec::is_serialized(store.nodes@, w) && ev[j]
                        == crate::codec::entry_of(store.nodes@, w);
                assert(ev[j].1 == crate::codec::wire_of_scalar(
                    store.nodes@[w].scalar->Some_0.metadata,
                    store.nodes@[w].scalar->Some_0.data.0@,
                ));
                assert(nv[j].1 == wire_norm(ev[j].1));
            }
            assert(obj_values_scalar(json_obj_list(m)));
        }
        let text = if self.adapter.pretty {
            obj_to_string_pretty(&m)
        } else {
            obj_to_string(&m)
        };
        match text {
            Ok(s) => {
                proof {
                    assert({
                        &&& ev.to_multiset() == crate::codec::scan_spec(
                            store.nodes@,
                            store.nodes@.len() as int,
                        ).to_multiset()
                        &&& crate::codec::entries_sorted(ev)
                        &&& s@ == (if self.adapter.pretty {
                            json_text_pretty_of(norm_entries(ev))
                        } else {
                            json_text_of(norm_entries(ev))
                        })
                    });
                }
                s
            },
            Err(_) => unreached(),
        }
    }

    /// Loads a JSON object text onto the store: parses it, then applies its
    /// entries in input order.  A text that is not a JSON object aborts the
    /// load without touching the store.
    pub fn load_json_str(&self, store: &mut crate::tree::ConfigStore, s: &str) -> (r: Result<
        (),
        crate::codec::DecodeError,
    >)
        requires
            old(store).wf(),
        ensures
            final(store).wf(),
            final(store).nodes@.len() == old(store).nodes@.len(),
            forall|j: int|
                0 <= j < old(store).nodes@.len() ==> (#[trigger] final(store).nodes@[j]) == (
                crate::tree::Node {
                    scalar: final(store).nodes@[j].scalar,
                    ..old(store).nodes@[j]
                }) && (match (old(store).nodes@[j].scalar, final(store).nodes@[j].scalar) {
                    (Some(a), Some(b)) => b.metadata == a.metadata,
                    (None, None) => true,
                    _ => false,
                }),
            json_parse(s@) is None ==> *final(store) == *old(store) && (r matches Err(e) && e
                is Syntax),
            json_parse(s@) matches Some(es) ==> {
                &&& crate::codec::scalar_vals(*final(store)) == crate::codec::apply_spec(
                    *old(store),
                    crate::codec::scalar_vals(*old(store)),
                    es,
                ).0
                &&& r == (match crate::codec::apply_spec(
                    *old(store),
                    crate::codec::scalar_vals(*old(store)),
                    es,
                ).1 {
                    None => Ok::<(), crate::codec::DecodeError>(()),
                    Some(e) => Err(e),
                })
            },
    {
        match parse_obj(s) {
            Err(e) => Err(crate::codec::DecodeError::Syntax(e)),
            Ok(m) => {
                let raw = obj_entries(&m);
                let mut wires: Vec<(String, crate::codec::WireValue)> = Vec::new();
                let mut k: usize = 0;
                proof {
                    assert(crate::codec::entries_view(wires@) =~= json_obj_list(m).take(0));
                }
                while k < raw.len()
                    invariant
                        0 <= k <= raw@.len(),
                        raw@.len() == json_obj_list(m).len(),
                        forall|j: int|
                            0 <= j < raw@.len() ==> (#[trigger] raw@[j]).0@ == json_obj_list(
                                m,
                            )[j].0 && wire_val_of(raw@[j].1) == json_obj_list(m)[j].1,
                        wires@.len() == k,
                        crate::codec::entries_view(wires@) == json_obj_list(m).take(k as int),
                    decreases raw@.len() - k,
                {
                    let key = raw[k].0.clone();
                    let wv = value_to_wire(&raw[k].1);
                    let ghost before = crate::codec::entries_view(wires@);
                    wires.push((key, wv));
                    proof {
                        assert forall|j: int|
                            0 <= j < wires@.len() implies crate::codec::entries_view(wires@)[j]
                            == json_obj_list(m).take(k + 1)[j] by {
                            if j < k {
                                assert(crate::codec::entries_view(wires@)[j] == before[j]);
                            } else {
                                assert(wires@[j] == (key, wv));
                            }
                        }
                        assert(crate::codec::entries_view(wires@) =~= json_obj_list(m).take(
                            k + 1,
                        ));
                    }
                    k = k + 1;
                }
                proof {
                    assert(json_obj_list(m).take(json_obj_list(m).len() as int) =~= json_obj_list(
                        m,
                    ));
                    assert(crate::codec::entries_view(wires@) == json_parse(s@)->Some_0);
                }
                crate::codec::apply_all(store, &wires)
            },
        }
    }
}

} // verus!
