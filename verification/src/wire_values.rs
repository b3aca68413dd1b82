//! Natural JSON structured values on the `/v1` wire and their conversion to
//! and from the domain value model. JSON numbers that are not signed 64-bit
//! integers are kept only as such, since the domain has no other numbers.
use vstd::prelude::*;
use vstd::string::StringSliceAdditionalSpecFns;
use vstd::utf8::{decode_utf8, encode_utf8};

use crate::hybrid::same_bytes;
use crate::query::{
    compare_holds, filter_holds, lemma_compare_integers,
    AggregationResult, CompareOperator, Cursor, Filter, GroupResult, MetricValue, NamedMetricValue, NullPlacement, Query,
    QueryResult, Record, SortDirection, SortField,
};
use crate::value::{
    resolve_model, strings_bytes, entry_models_of, lemma_entry_models_of, lemma_models_of, model_of, models_of, Value, ValueModel,
};
use crate::document::representable;
use crate::wire::{
    aggregation_to_domain, decode_key_hex, decode_hex, encode_hex, field_path, metric_converted, plan_paths_ok,
    sort_to_domain, AggregationPlanV1, NullPlacementV1, ProofV1, SortDirectionV1, SortFieldV1, hex_chars, hex_value, is_hex, lemma_hex_round_trip, segments_nonempty, CompareOperatorV1,
    WireValueError, BYTES_HEX_KEY,
};

verus! {

/// A JSON value as the wire carries it. Object members keep the order in
/// which the JSON object lists them.
#[derive(Debug)]
pub enum JsonValue {
    /// `null`.
    Null,
    /// `true` or `false`.
    Bool(bool),
    /// A number that is a signed 64-bit integer.
    Integer(i64),
    /// Any other number.
    OtherNumber,
    /// A string.
    String(String),
    /// An array.
    Array(Vec<JsonValue>),
    /// An object's members.
    Object(Vec<(String, JsonValue)>),
}

/// The mathematical model of a JSON value.
pub enum JsonModel {
    Null,
    Bool(bool),
    Integer(int),
    OtherNumber,
    Text(Seq<char>),
    Array(Seq<JsonModel>),
    Object(Seq<(Seq<char>, JsonModel)>),
}

pub open spec fn json_model(j: JsonValue) -> JsonModel
    decreases j,
{
    match j {
        JsonValue::Null => JsonModel::Null,
        JsonValue::Bool(b) => JsonModel::Bool(b),
        JsonValue::Integer(i) => JsonModel::Integer(i as int),
        JsonValue::OtherNumber => JsonModel::OtherNumber,
        JsonValue::String(s) => JsonModel::Text(s@),
        JsonValue::Array(items) => JsonModel::Array(json_models(items@)),
        JsonValue::Object(members) => JsonModel::Object(json_member_models(members@)),
    }
}

pub open spec fn json_models(items: Seq<JsonValue>) -> Seq<JsonModel>
    decreases items,
{
    if items.len() == 0 {
        Seq::empty()
    } else {
        json_models(items.subrange(0, items.len() - 1)).push(json_model(items[items.len() - 1]))
    }
}

pub open spec fn json_member_models(members: Seq<(String, JsonValue)>) -> Seq<(Seq<char>, JsonModel)>
    decreases members,
{
    if members.len() == 0 {
        Seq::empty()
    } else {
        json_member_models(members.subrange(0, members.len() - 1)).push(
            (members[members.len() - 1].0@, json_model(members[members.len() - 1].1)),
        )
    }
}

proof fn lemma_json_models(items: Seq<JsonValue>)
    ensures
        json_models(items).len() == items.len(),
        forall|i: int| 0 <= i < items.len() ==> #[trigger] json_models(items)[i] == json_model(items[i]),
    decreases items.len(),
{
    if items.len() > 0 {
        lemma_json_models(items.subrange(0, items.len() - 1));
        assert forall|i: int| 0 <= i < items.len() implies #[trigger] json_models(items)[i] == json_model(items[i]) by {
            if i < items.len() - 1 {
                assert(items.subrange(0, items.len() - 1)[i] == items[i]);
            }
        }
    }
}

proof fn lemma_json_member_models(members: Seq<(String, JsonValue)>)
    ensures
        json_member_models(members).len() == members.len(),
        forall|i: int|
            0 <= i < members.len() ==> #[trigger] json_member_models(members)[i] == (
                members[i].0@,
                json_model(members[i].1),
            ),
    decreases members.len(),
{
    if members.len() > 0 {
        lemma_json_member_models(members.subrange(0, members.len() - 1));
        assert forall|i: int| 0 <= i < members.len() implies #[trigger] json_member_models(members)[i] == (
            members[i].0@,
            json_model(members[i].1),
        ) by {
            if i < members.len() - 1 {
                assert(members.subrange(0, members.len() - 1)[i] == members[i]);
            }
        }
    }
}

/// An object that is the reserved bytes envelope: exactly one member, named
/// `BYTES_HEX_KEY`, whose value is a string.
pub open spec fn is_bytes_envelope(members: Seq<(Seq<char>, JsonModel)>) -> bool {
    members.len() == 1 && members[0].0 == BYTES_HEX_KEY@ && members[0].1 is Text
}

/// The domain value of a JSON value, or the first failure in document
/// order: a number that is not a signed 64-bit integer, or a bytes
/// envelope whose text is not hexadecimal.
pub open spec fn json_domain(j: JsonModel) -> Result<ValueModel, WireValueError>
    decreases j,
{
    match j {
        JsonModel::Null => Ok(ValueModel::Null),
        JsonModel::Bool(b) => Ok(ValueModel::Boolean(b)),
        JsonModel::Integer(i) => Ok(ValueModel::Integer(i)),
        JsonModel::OtherNumber => Err(WireValueError::NonIntegerNumber),
        JsonModel::Text(s) => Ok(ValueModel::Text(encode_utf8(s))),
        JsonModel::Array(items) => match json_items_domain(items) {
            Ok(ms) => Ok(ValueModel::Array(ms)),
            Err(e) => Err(e),
        },
        JsonModel::Object(members) => if is_bytes_envelope(members) {
            let text = encode_utf8(members[0].1->Text_0);
            if is_hex(text) {
                Ok(ValueModel::Bytes(hex_value(text)))
            } else {
                Err(WireValueError::InvalidBytesHex)
            }
        } else {
            match json_members_domain(members) {
                Ok(es) => Ok(ValueModel::Object(es)),
                Err(e) => Err(e),
            }
        },
    }
}

pub open spec fn json_items_domain(items: Seq<JsonModel>) -> Result<Seq<ValueModel>, WireValueError>
    decreases items,
{
    if items.len() == 0 {
        Ok(Seq::empty())
    } else {
        match json_items_domain(items.subrange(0, items.len() - 1)) {
            Err(e) => Err(e),
            Ok(ms) => match json_domain(items[items.len() - 1]) {
                Err(e) => Err(e),
                Ok(m) => Ok(ms.push(m)),
            },
        }
    }
}

pub open spec fn json_members_domain(members: Seq<(Seq<char>, JsonModel)>) -> Result<
    Seq<(Seq<u8>, ValueModel)>,
    WireValueError,
>
    decreases members,
{
    if members.len() == 0 {
        Ok(Seq::empty())
    } else {
        match json_members_domain(members.subrange(0, members.len() - 1)) {
            Err(e) => Err(e),
            Ok(es) => match json_domain(members[members.len() - 1].1) {
                Err(e) => Err(e),
                Ok(m) => Ok(es.push((encode_utf8(members[members.len() - 1].0), m))),
            },
        }
    }
}


/// Whether a member name is the reserved bytes key.
fn is_bytes_key(name: &String) -> (r: bool)
    ensures
        r == (name@ == BYTES_HEX_KEY@),
{
    let r = same_bytes(name.as_str().as_bytes(), BYTES_HEX_KEY.as_bytes());
    proof {
        vstd::utf8::encode_utf8_decode_utf8(name@);
        vstd::utf8::encode_utf8_decode_utf8(BYTES_HEX_KEY@);
    }
    r
}

/// Converts natural JSON into the deterministic structured value domain.
pub fn value_to_domain(j: &JsonValue) -> (r: Result<Value, WireValueError>)
    ensures
        match r {
            Ok(v) => json_domain(json_model(*j)) == Ok::<ValueModel, WireValueError>(model_of(v)),
            Err(e) => json_domain(json_model(*j)) == Err::<ValueModel, WireValueError>(e),
        },
    decreases j,
{
    match j {
        JsonValue::Null => Ok(Value::Null),
        JsonValue::Bool(b) => Ok(Value::Boolean(*b)),
        JsonValue::Integer(i) => Ok(Value::Integer(*i)),
        JsonValue::OtherNumber => Err(WireValueError::NonIntegerNumber),
        JsonValue::String(text) => Ok(Value::String(text.clone())),
        JsonValue::Array(items) => {
            match items_to_domain(items) {
                Ok(values) => Ok(Value::Array(values)),
                Err(e) => Err(e),
            }
        },
        JsonValue::Object(members) => {
            proof {
                lemma_json_member_models(members@);
            }
            if members.len() == 1 && is_bytes_key(&members[0].0) {
                match &members[0].1 {
                    JsonValue::String(text) => {
                        proof {
                            assert(is_bytes_envelope(json_member_models(members@)));
                        }
                        return match decode_hex(text.as_str().as_bytes()) {
                            Some(bytes) => Ok(Value::Bytes(bytes)),
                            None => Err(WireValueError::InvalidBytesHex),
                        };
                    },
                    _ => {},
                }
            }
            proof {
                assert(!is_bytes_envelope(json_member_models(members@)));
            }
            match members_to_domain(members) {
                Ok(entries) => Ok(Value::Object(entries)),
                Err(e) => Err(e),
            }
        },
    }
}

fn items_to_domain(items: &Vec<JsonValue>) -> (r: Result<Vec<Value>, WireValueError>)
    ensures
        match r {
            Ok(vs) => json_items_domain(json_models(items@)) == Ok::<Seq<ValueModel>, WireValueError>(models_of(vs@)),
            Err(e) => json_items_domain(json_models(items@)) == Err::<Seq<ValueModel>, WireValueError>(e),
        },
    decreases items,
{
    let ghost js = json_models(items@);
    proof {
        lemma_json_models(items@);
        assert(js.subrange(0, 0) =~= Seq::<JsonModel>::empty());
        assert(models_of(Seq::<Value>::empty()) =~= Seq::<ValueModel>::empty());
    }
    let mut out: Vec<Value> = Vec::new();
    let mut i: usize = 0;
    while i < items.len()
        invariant
            i <= items@.len(),
            js == json_models(items@),
            js.len() == items@.len(),
            forall|k: int| 0 <= k < items@.len() ==> #[trigger] js[k] == json_model(items@[k]),
            json_items_domain(js.subrange(0, i as int)) == Ok::<Seq<ValueModel>, WireValueError>(models_of(out@)),
        decreases items@.len() - i,
    {
        let ghost prefix = js.subrange(0, i + 1);
        proof {
            assert(prefix.subrange(0, prefix.len() - 1) =~= js.subrange(0, i as int));
            assert(prefix[prefix.len() - 1] == json_model(items@[i as int]));
        }
        let v = match value_to_domain(&items[i]) {
            Ok(v) => v,
            Err(e) => {
                proof {
                    lemma_items_error_persists(js, i + 1, e);
                }
                return Err(e);
            },
        };
        let ghost before = out@;
        out.push(v);
        proof {
            assert(out@.subrange(0, out@.len() - 1) =~= before);
        }
        i = i + 1;
    }
    proof {
        assert(js.subrange(0, js.len() as int) =~= js);
    }
    Ok(out)
}

/// Once a prefix of the items fails, every longer prefix fails alike.
proof fn lemma_items_error_persists(js: Seq<JsonModel>, k: int, e: WireValueError)
    requires
        0 <= k <= js.len(),
        json_items_domain(js.subrange(0, k)) == Err::<Seq<ValueModel>, WireValueError>(e),
    ensures
        json_items_domain(js) == Err::<Seq<ValueModel>, WireValueError>(e),
    decreases js.len() - k,
{
    if k == js.len() {
        assert(js.subrange(0, k) =~= js);
    } else {
        let p = js.subrange(0, k + 1);
        assert(p.subrange(0, p.len() - 1) =~= js.subrange(0, k));
        lemma_items_error_persists(js, k + 1, e);
    }
}

/// Once a prefix of the members fails, every longer prefix fails alike.
proof fn lemma_members_error_persists(ms: Seq<(Seq<char>, JsonModel)>, k: int, e: WireValueError)
    requires
        0 <= k <= ms.len(),
        json_members_domain(ms.subrange(0, k)) == Err::<Seq<(Seq<u8>, ValueModel)>, WireValueError>(e),
    ensures
        json_members_domain(ms) == Err::<Seq<(Seq<u8>, ValueModel)>, WireValueError>(e),
    decreases ms.len() - k,
{
    if k == ms.len() {
        assert(ms.subrange(0, k) =~= ms);
    } else {
        let p = ms.subrange(0, k + 1);
        assert(p.subrange(0, p.len() - 1) =~= ms.subrange(0, k));
        lemma_members_error_persists(ms, k + 1, e);
    }
}

fn members_to_domain(members: &Vec<(String, JsonValue)>) -> (r: Result<Vec<(String, Value)>, WireValueError>)
    ensures
        match r {
            Ok(es) => json_members_domain(json_member_models(members@)) == Ok::<
                Seq<(Seq<u8>, ValueModel)>,
                WireValueError,
            >(entry_models_of(es@)),
            Err(e) => json_members_domain(json_member_models(members@)) == Err::<
                Seq<(Seq<u8>, ValueModel)>,
                WireValueError,
            >(e),
        },
    decreases members,
{
    let ghost ms = json_member_models(members@);
    proof {
        lemma_json_member_models(members@);
        assert(ms.subrange(0, 0) =~= Seq::<(Seq<char>, JsonModel)>::empty());
        assert(entry_models_of(Seq::<(String, Value)>::empty()) =~= Seq::<(Seq<u8>, ValueModel)>::empty());
    }
    let mut out: Vec<(String, Value)> = Vec::new();
    let mut i: usize = 0;
    while i < members.len()
        invariant
            i <= members@.len(),
            ms == json_member_models(members@),
            ms.len() == members@.len(),
            forall|k: int| 0 <= k < members@.len() ==> #[trigger] ms[k] == (members@[k].0@, json_model(members@[k].1)),
            json_members_domain(ms.subrange(0, i as int)) == Ok::<Seq<(Seq<u8>, ValueModel)>, WireValueError>(
                entry_models_of(out@),
            ),
        decreases members@.len() - i,
    {
        let ghost prefix = ms.subrange(0, i + 1);
        proof {
            assert(prefix.subrange(0, prefix.len() - 1) =~= ms.subrange(0, i as int));
            assert(prefix[prefix.len() - 1] == (members@[i as int].0@, json_model(members@[i as int].1)));
        }
        let v = match value_to_domain(&members[i].1) {
            Ok(v) => v,
            Err(e) => {
                proof {
                    lemma_members_error_persists(ms, i + 1, e);
                }
                return Err(e);
            },
        };
        let name = members[i].0.clone();
        let ghost before = out@;
        out.push((name, v));
        proof {
            assert(out@.subrange(0, out@.len() - 1) =~= before);
        }
        i = i + 1;
    }
    proof {
        assert(ms.subrange(0, ms.len() as int) =~= ms);
    }
    Ok(out)
}


// ---------------------------------------------------------------------------
// Domain values as JSON.

/// The natural JSON of a domain value: bytes become the reserved envelope
/// holding their lowercase hexadecimal.
pub open spec fn domain_json(m: ValueModel) -> JsonModel
    decreases m,
{
    match m {
        ValueModel::Null => JsonModel::Null,
        ValueModel::Boolean(b) => JsonModel::Bool(b),
        ValueModel::Integer(i) => JsonModel::Integer(i),
        ValueModel::Text(b) => JsonModel::Text(decode_utf8(b)),
        ValueModel::Bytes(b) => JsonModel::Object(seq![(BYTES_HEX_KEY@, JsonModel::Text(hex_chars(b)))]),
        ValueModel::Array(items) => JsonModel::Array(
            Seq::new(
                items.len(),
                |i: int|
                    if 0 <= i < items.len() {
                        domain_json(items[i])
                    } else {
                        JsonModel::Null
                    },
            ),
        ),
        ValueModel::Object(entries) => JsonModel::Object(
            Seq::new(
                entries.len(),
                |i: int|
                    if 0 <= i < entries.len() {
                        (decode_utf8(entries[i].0), domain_json(entries[i].1))
                    } else {
                        (Seq::empty(), JsonModel::Null)
                    },
            ),
        ),
    }
}

/// Converts one structured value into natural JSON.
pub fn value_from_domain(v: &Value) -> (r: JsonValue)
    ensures
        json_model(r) == domain_json(model_of(*v)),
    decreases v,
{
    match v {
        Value::Null => JsonValue::Null,
        Value::Boolean(b) => JsonValue::Bool(*b),
        Value::Integer(i) => JsonValue::Integer(*i),
        Value::String(text) => {
            proof {
                vstd::utf8::encode_utf8_decode_utf8(text@);
            }
            JsonValue::String(text.clone())
        },
        Value::Bytes(bytes) => {
            let hex = encode_hex(bytes.as_slice());
            let mut members: Vec<(String, JsonValue)> = Vec::new();
            members.push((BYTES_HEX_KEY.to_string(), JsonValue::String(hex)));
            proof {
                lemma_json_member_models(members@);
                assert(json_member_models(members@) =~= seq![(BYTES_HEX_KEY@, JsonModel::Text(hex_chars(bytes@)))]);
            }
            let r = JsonValue::Object(members);
            assert(json_model(r) == domain_json(model_of(*v)));
            r
        },
        Value::Array(items) => {
            let out = items_from_domain(items);
            proof {
                lemma_models_of(items@);
                lemma_json_models(out@);
                let ms = models_of(items@);
                let d = domain_json(ValueModel::Array(ms));
                assert(d->Array_0 =~= json_models(out@));
            }
            let r = JsonValue::Array(out);
            assert(json_model(r) == domain_json(model_of(*v)));
            r
        },
        Value::Object(entries) => {
            let out = entries_from_domain(entries);
            proof {
                lemma_entry_models_of(entries@);
                lemma_json_member_models(out@);
                let es = entry_models_of(entries@);
                assert forall|i: int| 0 <= i < es.len() implies decode_utf8(#[trigger] es[i].0) == out@[i].0@ by {
                    vstd::utf8::encode_utf8_decode_utf8(entries@[i].0@);
                }
                let d = domain_json(ValueModel::Object(es));
                assert(d->Object_0 =~= json_member_models(out@));
            }
            let r = JsonValue::Object(out);
            assert(json_model(r) == domain_json(model_of(*v)));
            r
        },
    }
}

fn items_from_domain(items: &Vec<Value>) -> (r: Vec<JsonValue>)
    ensures
        r@.len() == items@.len(),
        forall|i: int| 0 <= i < items@.len() ==> json_model(#[trigger] r@[i]) == domain_json(model_of(items@[i])),
    decreases items,
{
    let mut out: Vec<JsonValue> = Vec::new();
    let mut i: usize = 0;
    while i < items.len()
        invariant
            i <= items@.len(),
            out@.len() == i,
            forall|k: int| 0 <= k < i ==> json_model(#[trigger] out@[k]) == domain_json(model_of(items@[k])),
        decreases items@.len() - i,
    {
        out.push(value_from_domain(&items[i]));
        i = i + 1;
    }
    out
}

fn entries_from_domain(entries: &Vec<(String, Value)>) -> (r: Vec<(String, JsonValue)>)
    ensures
        r@.len() == entries@.len(),
        forall|i: int|
            0 <= i < entries@.len() ==> (#[trigger] r@[i]).0@ == entries@[i].0@ && json_model(r@[i].1) == domain_json(
                model_of(entries@[i].1),
            ),
    decreases entries,
{
    let mut out: Vec<(String, JsonValue)> = Vec::new();
    let mut i: usize = 0;
    while i < entries.len()
        invariant
            i <= entries@.len(),
            out@.len() == i,
            forall|k: int|
                0 <= k < i ==> (#[trigger] out@[k]).0@ == entries@[k].0@ && json_model(out@[k].1) == domain_json(
                    model_of(entries@[k].1),
                ),
        decreases entries@.len() - i,
    {
        let name = entries[i].0.clone();
        out.push((name, value_from_domain(&entries[i].1)));
        i = i + 1;
    }
    out
}


// ---------------------------------------------------------------------------
// Round trip.

/// No object of the value has the shape of the reserved bytes envelope.
pub open spec fn envelope_free(m: ValueModel) -> bool
    decreases m,
{
    match m {
        ValueModel::Array(items) => forall|i: int| 0 <= i < items.len() ==> envelope_free(#[trigger] items[i]),
        ValueModel::Object(entries) => {
            &&& !(entries.len() == 1 && decode_utf8(entries[0].0) == BYTES_HEX_KEY@ && entries[0].1 is Text)
            &&& forall|i: int| 0 <= i < entries.len() ==> envelope_free(#[trigger] entries[i].1)
        },
        _ => true,
    }
}

proof fn lemma_items_back(js: Seq<JsonModel>, items: Seq<ValueModel>, n: int)
    requires
        0 <= n <= js.len(),
        js.len() == items.len(),
        forall|i: int| 0 <= i < js.len() ==> json_domain(#[trigger] js[i]) == Ok::<ValueModel, WireValueError>(items[i]),
    ensures
        json_items_domain(js.subrange(0, n)) == Ok::<Seq<ValueModel>, WireValueError>(items.subrange(0, n)),
    decreases n,
{
    if n == 0 {
        assert(js.subrange(0, 0) =~= Seq::<JsonModel>::empty());
        assert(items.subrange(0, 0) =~= Seq::<ValueModel>::empty());
    } else {
        lemma_items_back(js, items, n - 1);
        let p = js.subrange(0, n);
        assert(p.subrange(0, p.len() - 1) =~= js.subrange(0, n - 1));
        assert(p[p.len() - 1] == js[n - 1]);
        assert(items.subrange(0, n - 1).push(items[n - 1]) =~= items.subrange(0, n));
    }
}

proof fn lemma_members_back(ms: Seq<(Seq<char>, JsonModel)>, es: Seq<(Seq<u8>, ValueModel)>, n: int)
    requires
        0 <= n <= ms.len(),
        ms.len() == es.len(),
        forall|i: int|
            0 <= i < ms.len() ==> encode_utf8((#[trigger] ms[i]).0) == es[i].0 && json_domain(ms[i].1) == Ok::<
                ValueModel,
                WireValueError,
            >(es[i].1),
    ensures
        json_members_domain(ms.subrange(0, n)) == Ok::<Seq<(Seq<u8>, ValueModel)>, WireValueError>(es.subrange(0, n)),
    decreases n,
{
    if n == 0 {
        assert(ms.subrange(0, 0) =~= Seq::<(Seq<char>, JsonModel)>::empty());
        assert(es.subrange(0, 0) =~= Seq::<(Seq<u8>, ValueModel)>::empty());
    } else {
        lemma_members_back(ms, es, n - 1);
        let p = ms.subrange(0, n);
        assert(p.subrange(0, p.len() - 1) =~= ms.subrange(0, n - 1));
        assert(p[p.len() - 1] == ms[n - 1]);
        assert(es.subrange(0, n - 1).push(es[n - 1]) =~= es.subrange(0, n));
    }
}

/// Reading back the natural JSON of a domain value gives the value again,
/// for every value none of whose objects has the shape of the reserved
/// bytes envelope.
pub proof fn lemma_json_round_trip(m: ValueModel)
    requires
        representable(m),
        envelope_free(m),
    ensures
        json_domain(domain_json(m)) == Ok::<ValueModel, WireValueError>(m),
    decreases m,
{
    match m {
        ValueModel::Text(b) => {
            vstd::utf8::decode_utf8_encode_utf8(b);
        },
        ValueModel::Bytes(b) => {
            lemma_hex_round_trip(b);
            let members = seq![(BYTES_HEX_KEY@, JsonModel::Text(hex_chars(b)))];
            assert(is_bytes_envelope(members));
        },
        ValueModel::Array(items) => {
            let js = domain_json(m)->Array_0;
            assert forall|i: int| 0 <= i < js.len() implies json_domain(#[trigger] js[i]) == Ok::<
                ValueModel,
                WireValueError,
            >(items[i]) by {
                lemma_json_round_trip(items[i]);
            }
            lemma_items_back(js, items, js.len() as int);
            assert(js.subrange(0, js.len() as int) =~= js);
            assert(items.subrange(0, items.len() as int) =~= items);
        },
        ValueModel::Object(entries) => {
            let ms = domain_json(m)->Object_0;
            assert forall|i: int| 0 <= i < ms.len() implies encode_utf8((#[trigger] ms[i]).0) == entries[i].0
                && json_domain(ms[i].1) == Ok::<ValueModel, WireValueError>(entries[i].1) by {
                vstd::utf8::decode_utf8_encode_utf8(entries[i].0);
                lemma_json_round_trip(entries[i].1);
            }
            if ms.len() == 1 && ms[0].0 == BYTES_HEX_KEY@ && ms[0].1 is Text {
                assert(decode_utf8(entries[0].0) == BYTES_HEX_KEY@);
                assert(domain_json(entries[0].1) is Text);
                assert(entries[0].1 is Text);
            }
            assert(!is_bytes_envelope(ms));
            lemma_members_back(ms, entries, ms.len() as int);
            assert(ms.subrange(0, ms.len() as int) =~= ms);
            assert(entries.subrange(0, entries.len() as int) =~= entries);
        },
        _ => {},
    }
}


// ---------------------------------------------------------------------------
// Filters.

/// Versioned recursive filter expression.
#[derive(Debug)]
pub enum FilterV1 {
    /// Match every record.
    MatchAll,
    /// Test whether a path resolves.
    Exists {
        /// Exact object path; an empty list selects the root.
        path: Vec<String>,
    },
    /// Compare one resolved value.
    Compare {
        /// Exact object path.
        path: Vec<String>,
        /// Ordered operator.
        operator: CompareOperatorV1,
        /// Natural JSON literal.
        value: JsonValue,
    },
    /// Test a string or bytes prefix.
    Prefix {
        /// Exact object path.
        path: Vec<String>,
        /// Same-type prefix literal.
        prefix: JsonValue,
    },
    /// Test array membership, string substring, or byte subsequence.
    Contains {
        /// Exact object path.
        path: Vec<String>,
        /// Same-type needle literal.
        needle: JsonValue,
    },
    /// Require every child.
    All {
        /// Child filters.
        filters: Vec<FilterV1>,
    },
    /// Require at least one child.
    Any {
        /// Child filters.
        filters: Vec<FilterV1>,
    },
    /// Negate one child.
    Not {
        /// Child filter.
        filter: Box<FilterV1>,
    },
}

/// The domain operator of a wire operator.
pub open spec fn operator_of(o: CompareOperatorV1) -> CompareOperator {
    match o {
        CompareOperatorV1::Equal => CompareOperator::Equal,
        CompareOperatorV1::NotEqual => CompareOperator::NotEqual,
        CompareOperatorV1::Less => CompareOperator::Less,
        CompareOperatorV1::LessOrEqual => CompareOperator::LessOrEqual,
        CompareOperatorV1::Greater => CompareOperator::Greater,
        CompareOperatorV1::GreaterOrEqual => CompareOperator::GreaterOrEqual,
    }
}

/// Distinct wire operators convert to distinct domain operators, and each
/// converts to the domain relation its wire name denotes: on integers,
/// `Equal` is `==`, `NotEqual` is `!=`, `Less` is `<`, `LessOrEqual` is
/// `<=`, `Greater` is `>` and `GreaterOrEqual` is `>=`.
pub proof fn lemma_operator_conversion(a: CompareOperatorV1, b: CompareOperatorV1, x: int, y: int)
    ensures
        operator_of(a) == operator_of(b) ==> a == b,
        compare_holds(ValueModel::Integer(x), ValueModel::Integer(y), operator_of(CompareOperatorV1::Equal)) <==> x == y,
        compare_holds(ValueModel::Integer(x), ValueModel::Integer(y), operator_of(CompareOperatorV1::NotEqual)) <==> x
            != y,
        compare_holds(ValueModel::Integer(x), ValueModel::Integer(y), operator_of(CompareOperatorV1::Less)) <==> x < y,
        compare_holds(ValueModel::Integer(x), ValueModel::Integer(y), operator_of(CompareOperatorV1::LessOrEqual))
            <==> x <= y,
        compare_holds(ValueModel::Integer(x), ValueModel::Integer(y), operator_of(CompareOperatorV1::Greater)) <==> x
            > y,
        compare_holds(ValueModel::Integer(x), ValueModel::Integer(y), operator_of(CompareOperatorV1::GreaterOrEqual))
            <==> x >= y,
{
    lemma_compare_integers(x, y);
}

/// A wire compare filter converts to a domain filter that holds on a record
/// whose field equals the literal exactly for the wire operators `Equal`,
/// `LessOrEqual` and `GreaterOrEqual`.
pub proof fn lemma_converted_compare_on_equal_value(
    path: Vec<String>,
    operator: CompareOperatorV1,
    value: JsonValue,
    d: Filter,
    root: ValueModel,
)
    requires
        filter_converted(FilterV1::Compare { path, operator, value }, d),
        resolve_model(root, strings_bytes(path@)) == Some(json_domain(json_model(value))->Ok_0),
        json_domain(json_model(value)) is Ok,
    ensures
        filter_holds(d, root) <==> (operator == CompareOperatorV1::Equal || operator == CompareOperatorV1::LessOrEqual
            || operator == CompareOperatorV1::GreaterOrEqual),
{
    match d {
        Filter::Compare { path: p, operator: o, value: v } => {
            crate::query::lemma_compare_filter_on_equal_value(p, o, v, root);
        },
        _ => {},
    }
}

/// The failure of a path, then of a literal, if any.
pub open spec fn path_value_fault(path: Seq<String>, value: JsonValue) -> Option<WireValueError> {
    if !segments_nonempty(path) {
        Some(WireValueError::EmptyPathSegment)
    } else {
        match json_domain(json_model(value)) {
            Err(e) => Some(e),
            Ok(_) => None,
        }
    }
}

/// The first failure converting a wire filter, in document order.
pub open spec fn filter_fault(f: FilterV1) -> Option<WireValueError>
    decreases f,
{
    match f {
        FilterV1::MatchAll => None,
        FilterV1::Exists { path } => if segments_nonempty(path@) {
            None
        } else {
            Some(WireValueError::EmptyPathSegment)
        },
        FilterV1::Compare { path, value, .. } => path_value_fault(path@, value),
        FilterV1::Prefix { path, prefix } => path_value_fault(path@, prefix),
        FilterV1::Contains { path, needle } => path_value_fault(path@, needle),
        FilterV1::All { filters } => filters_fault(filters@),
        FilterV1::Any { filters } => filters_fault(filters@),
        FilterV1::Not { filter } => filter_fault(*filter),
    }
}

pub open spec fn filters_fault(fs: Seq<FilterV1>) -> Option<WireValueError>
    decreases fs,
{
    if fs.len() == 0 {
        None
    } else {
        match filters_fault(fs.subrange(0, fs.len() - 1)) {
            Some(e) => Some(e),
            None => filter_fault(fs[fs.len() - 1]),
        }
    }
}

/// The literal converts to `v`.
pub open spec fn literal_converted(j: JsonValue, v: Value) -> bool {
    json_domain(json_model(j)) == Ok::<ValueModel, WireValueError>(model_of(v))
}

/// `d` is the domain filter of the wire filter `f`.
pub open spec fn filter_converted(f: FilterV1, d: Filter) -> bool
    decreases f,
{
    match f {
        FilterV1::MatchAll => d is MatchAll,
        FilterV1::Exists { path } => d matches Filter::Exists(p) && p@ == strings_bytes(path@),
        FilterV1::Compare { path, operator, value } => d matches Filter::Compare { path: p, operator: o, value: v }
            && p@ == strings_bytes(path@) && o == operator_of(operator) && literal_converted(value, v),
        FilterV1::Prefix { path, prefix } => d matches Filter::Prefix { path: p, prefix: v } && p@ == strings_bytes(
            path@,
        ) && literal_converted(prefix, v),
        FilterV1::Contains { path, needle } => d matches Filter::Contains { path: p, needle: v } && p@
            == strings_bytes(path@) && literal_converted(needle, v),
        FilterV1::All { filters } => d matches Filter::All(cs) && cs@.len() == filters@.len() && forall|i: int|
            0 <= i < filters@.len() ==> filter_converted(#[trigger] filters@[i], cs@[i]),
        FilterV1::Any { filters } => d matches Filter::Any(cs) && cs@.len() == filters@.len() && forall|i: int|
            0 <= i < filters@.len() ==> filter_converted(#[trigger] filters@[i], cs@[i]),
        FilterV1::Not { filter } => d matches Filter::Not(c) && filter_converted(*filter, *c),
    }
}

fn operator_to_domain(o: CompareOperatorV1) -> (r: CompareOperator)
    ensures
        r == operator_of(o),
{
    match o {
        CompareOperatorV1::Equal => CompareOperator::Equal,
        CompareOperatorV1::NotEqual => CompareOperator::NotEqual,
        CompareOperatorV1::Less => CompareOperator::Less,
        CompareOperatorV1::LessOrEqual => CompareOperator::LessOrEqual,
        CompareOperatorV1::Greater => CompareOperator::Greater,
        CompareOperatorV1::GreaterOrEqual => CompareOperator::GreaterOrEqual,
    }
}

/// Converts a wire filter into the domain filter; the first failing path
/// or literal, in document order, fails the conversion.
pub fn filter_to_domain(f: &FilterV1) -> (r: Result<Filter, WireValueError>)
    ensures
        match r {
            Ok(d) => filter_fault(*f) is None && filter_converted(*f, d),
            Err(e) => filter_fault(*f) == Some(e),
        },
    decreases f,
{
    match f {
        FilterV1::MatchAll => Ok(Filter::MatchAll),
        FilterV1::Exists { path } => match field_path(path) {
            Ok(p) => Ok(Filter::Exists(p)),
            Err(e) => Err(e),
        },
        FilterV1::Compare { path, operator, value } => {
            let p = match field_path(path) {
                Ok(p) => p,
                Err(e) => {
                    return Err(e);
                },
            };
            match value_to_domain(value) {
                Ok(v) => Ok(Filter::Compare { path: p, operator: operator_to_domain(*operator), value: v }),
                Err(e) => Err(e),
            }
        },
        FilterV1::Prefix { path, prefix } => {
            let p = match field_path(path) {
                Ok(p) => p,
                Err(e) => {
                    return Err(e);
                },
            };
            match value_to_domain(prefix) {
                Ok(v) => Ok(Filter::Prefix { path: p, prefix: v }),
                Err(e) => Err(e),
            }
        },
        FilterV1::Contains { path, needle } => {
            let p = match field_path(path) {
                Ok(p) => p,
                Err(e) => {
                    return Err(e);
                },
            };
            match value_to_domain(needle) {
                Ok(v) => Ok(Filter::Contains { path: p, needle: v }),
                Err(e) => Err(e),
            }
        },
        FilterV1::All { filters } => match filters_to_domain(filters) {
            Ok(cs) => Ok(Filter::All(cs)),
            Err(e) => Err(e),
        },
        FilterV1::Any { filters } => match filters_to_domain(filters) {
            Ok(cs) => Ok(Filter::Any(cs)),
            Err(e) => Err(e),
        },
        FilterV1::Not { filter } => match filter_to_domain(filter) {
            Ok(c) => Ok(Filter::Not(Box::new(c))),
            Err(e) => Err(e),
        },
    }
}

proof fn lemma_filters_fault_persists(fs: Seq<FilterV1>, k: int, e: WireValueError)
    requires
        0 <= k <= fs.len(),
        filters_fault(fs.subrange(0, k)) == Some(e),
    ensures
        filters_fault(fs) == Some(e),
    decreases fs.len() - k,
{
    if k == fs.len() {
        assert(fs.subrange(0, k) =~= fs);
    } else {
        let p = fs.subrange(0, k + 1);
        assert(p.subrange(0, p.len() - 1) =~= fs.subrange(0, k));
        lemma_filters_fault_persists(fs, k + 1, e);
    }
}

fn filters_to_domain(filters: &Vec<FilterV1>) -> (r: Result<Vec<Filter>, WireValueError>)
    ensures
        match r {
            Ok(cs) => filters_fault(filters@) is None && cs@.len() == filters@.len() && forall|i: int|
                0 <= i < filters@.len() ==> filter_converted(#[trigger] filters@[i], cs@[i]),
            Err(e) => filters_fault(filters@) == Some(e),
        },
    decreases filters,
{
    let mut out: Vec<Filter> = Vec::new();
    let mut i: usize = 0;
    proof {
        assert(filters@.subrange(0, 0) =~= Seq::<FilterV1>::empty());
    }
    while i < filters.len()
        invariant
            i <= filters@.len(),
            out@.len() == i,
            filters_fault(filters@.subrange(0, i as int)) is None,
            forall|k: int| 0 <= k < i ==> filter_converted(#[trigger] filters@[k], out@[k]),
        decreases filters@.len() - i,
    {
        let ghost p = filters@.subrange(0, i + 1);
        proof {
            assert(p.subrange(0, p.len() - 1) =~= filters@.subrange(0, i as int));
        }
        match filter_to_domain(&filters[i]) {
            Ok(c) => {
                out.push(c);
            },
            Err(e) => {
                proof {
                    lemma_filters_fault_persists(filters@, i + 1, e);
                }
                return Err(e);
            },
        }
        i = i + 1;
    }
    proof {
        assert(filters@.subrange(0, filters@.len() as int) =~= filters@);
    }
    Ok(out)
}


// ---------------------------------------------------------------------------
// Cursors, records and query requests.

/// Logical continuation cursor on the wire.
#[derive(Debug)]
pub struct CursorV1 {
    /// Normalized sort values; JSON null represents missing/null.
    pub sort_values: Vec<Option<JsonValue>>,
    /// Final binary key tie-breaker as hexadecimal.
    pub key_hex: String,
}

/// One structured record on the wire.
#[derive(Debug)]
pub struct RecordV1 {
    /// Nonempty binary key encoded as hexadecimal.
    pub key_hex: String,
    /// Natural JSON structured value with the reserved bytes envelope.
    pub value: JsonValue,
}

/// Complete version 1 structured query request.
#[derive(Debug)]
pub struct QueryRequestV1 {
    /// Recursive filter.
    pub filter: FilterV1,
    /// Deterministic sort fields.
    pub sort: Vec<SortFieldV1>,
    /// Optional logical continuation cursor.
    pub cursor: Option<CursorV1>,
    /// Final page size.
    pub limit: u32,
    /// Optional global or grouped aggregation.
    pub aggregation: Option<AggregationPlanV1>,
    /// Requested cooperative query timeout.
    pub timeout_ms: Option<u64>,
}

/// A key is nonempty hexadecimal.
pub open spec fn key_hex_ok(key_hex: String) -> bool {
    is_hex(encode_utf8(key_hex@)) && encode_utf8(key_hex@).len() > 0
}

/// The first failing optional literal, in order.
pub open spec fn optional_values_fault(vs: Seq<Option<JsonValue>>) -> Option<WireValueError>
    decreases vs.len(),
{
    if vs.len() == 0 {
        None
    } else {
        match optional_values_fault(vs.subrange(0, vs.len() - 1)) {
            Some(e) => Some(e),
            None => match vs[vs.len() - 1] {
                Some(j) => match json_domain(json_model(j)) {
                    Err(e) => Some(e),
                    Ok(_) => None,
                },
                None => None,
            },
        }
    }
}

/// The first failure converting a cursor: its sort values in order, then
/// its key.
pub open spec fn cursor_fault(c: CursorV1) -> Option<WireValueError> {
    match optional_values_fault(c.sort_values@) {
        Some(e) => Some(e),
        None => if key_hex_ok(c.key_hex) {
            None
        } else {
            Some(WireValueError::InvalidKeyHex)
        },
    }
}

/// `d` is the domain cursor of the wire cursor `c`.
pub open spec fn cursor_converted(c: CursorV1, d: Cursor) -> bool {
    &&& d.sort_values@.len() == c.sort_values@.len()
    &&& forall|i: int|
        0 <= i < c.sort_values@.len() ==> match (#[trigger] c.sort_values@[i], d.sort_values@[i]) {
            (None, None) => true,
            (Some(j), Some(v)) => literal_converted(j, v),
            _ => false,
        }
    &&& d.key@ == hex_value(encode_utf8(c.key_hex@))
}

proof fn lemma_optional_values_fault_persists(vs: Seq<Option<JsonValue>>, k: int, e: WireValueError)
    requires
        0 <= k <= vs.len(),
        optional_values_fault(vs.subrange(0, k)) == Some(e),
    ensures
        optional_values_fault(vs) == Some(e),
    decreases vs.len() - k,
{
    if k == vs.len() {
        assert(vs.subrange(0, k) =~= vs);
    } else {
        let p = vs.subrange(0, k + 1);
        assert(p.subrange(0, p.len() - 1) =~= vs.subrange(0, k));
        lemma_optional_values_fault_persists(vs, k + 1, e);
    }
}

/// Converts a wire cursor into the domain cursor.
pub fn cursor_to_domain(c: &CursorV1) -> (r: Result<Cursor, WireValueError>)
    ensures
        match r {
            Ok(d) => cursor_fault(*c) is None && cursor_converted(*c, d),
            Err(e) => cursor_fault(*c) == Some(e),
        },
{
    let mut values: Vec<Option<Value>> = Vec::new();
    let mut i: usize = 0;
    proof {
        assert(c.sort_values@.subrange(0, 0) =~= Seq::<Option<JsonValue>>::empty());
    }
    while i < c.sort_values.len()
        invariant
            i <= c.sort_values@.len(),
            values@.len() == i,
            optional_values_fault(c.sort_values@.subrange(0, i as int)) is None,
            forall|k: int|
                0 <= k < i ==> match (#[trigger] c.sort_values@[k], values@[k]) {
                    (None, None) => true,
                    (Some(j), Some(v)) => literal_converted(j, v),
                    _ => false,
                },
        decreases c.sort_values@.len() - i,
    {
        let ghost p = c.sort_values@.subrange(0, i + 1);
        proof {
            assert(p.subrange(0, p.len() - 1) =~= c.sort_values@.subrange(0, i as int));
        }
        match &c.sort_values[i] {
            None => {
                values.push(None);
            },
            Some(j) => match value_to_domain(j) {
                Ok(v) => {
                    values.push(Some(v));
                },
                Err(e) => {
                    proof {
                        lemma_optional_values_fault_persists(c.sort_values@, i + 1, e);
                    }
                    return Err(e);
                },
            },
        }
        i = i + 1;
    }
    proof {
        assert(c.sort_values@.subrange(0, c.sort_values@.len() as int) =~= c.sort_values@);
    }
    let key = match decode_key_hex(c.key_hex.as_str()) {
        Ok(k) => k,
        Err(e) => {
            return Err(e);
        },
    };
    Ok(Cursor { sort_values: values, key })
}

impl RecordV1 {
    /// Converts one wire record into the domain record: the key, then the
    /// value, must convert.
    pub fn to_domain(&self) -> (r: Result<Record, WireValueError>)
        ensures
            match r {
                Ok(d) => key_hex_ok(self.key_hex) && d.key@ == hex_value(encode_utf8(self.key_hex@))
                    && literal_converted(self.value, d.value),
                Err(e) => if !key_hex_ok(self.key_hex) {
                    e == WireValueError::InvalidKeyHex
                } else {
                    json_domain(json_model(self.value)) == Err::<ValueModel, WireValueError>(e)
                },
            },
    {
        let key = match decode_key_hex(self.key_hex.as_str()) {
            Ok(k) => k,
            Err(e) => {
                return Err(e);
            },
        };
        match value_to_domain(&self.value) {
            Ok(value) => Ok(Record { key, value }),
            Err(e) => Err(e),
        }
    }

    /// Converts one domain record into its wire form.
    pub fn from_domain(record: &Record) -> (r: RecordV1)
        ensures
            r.key_hex@ == hex_chars(record.key@),
            json_model(r.value) == domain_json(model_of(record.value)),
    {
        RecordV1 { key_hex: encode_hex(record.key.as_slice()), value: value_from_domain(&record.value) }
    }
}

/// The first failing sort field, in order.
pub open spec fn sort_fault(sort: Seq<SortFieldV1>) -> bool {
    exists|i: int| 0 <= i < sort.len() && !segments_nonempty((#[trigger] sort[i]).path@)
}

/// The first failure converting a query request: the filter, the sort
/// fields, the cursor, then the aggregation plan.
pub open spec fn request_fault(q: QueryRequestV1) -> Option<WireValueError> {
    if filter_fault(q.filter) is Some {
        filter_fault(q.filter)
    } else if sort_fault(q.sort@) {
        Some(WireValueError::EmptyPathSegment)
    } else if q.cursor is Some && cursor_fault(q.cursor->0) is Some {
        cursor_fault(q.cursor->0)
    } else if q.aggregation is Some && !plan_paths_ok(q.aggregation->0) {
        Some(WireValueError::EmptyPathSegment)
    } else {
        None
    }
}

/// `d` is the domain sort field of the wire field `f`.
pub open spec fn sort_converted(f: SortFieldV1, d: SortField) -> bool {
    &&& d.path@ == strings_bytes(f.path@)
    &&& (d.direction == SortDirection::Ascending <==> f.direction == SortDirectionV1::Ascending)
    &&& (d.nulls == NullPlacement::First <==> f.nulls == NullPlacementV1::First)
}

impl QueryRequestV1 {
    /// Converts the versioned wire request into the domain query.
    pub fn to_domain(&self) -> (r: Result<Query, WireValueError>)
        ensures
            match r {
                Ok(q) => {
                    &&& request_fault(*self) is None
                    &&& filter_converted(self.filter, q.filter)
                    &&& q.sort@.len() == self.sort@.len()
                    &&& forall|i: int| 0 <= i < self.sort@.len() ==> sort_converted(#[trigger] self.sort@[i], q.sort@[i])
                    &&& (self.cursor is None <==> q.cursor is None)
                    &&& (self.cursor matches Some(c) ==> cursor_converted(c, q.cursor->0))
                    &&& q.limit == self.limit
                    &&& (self.aggregation is None <==> q.aggregation is None)
                    &&& (self.aggregation matches Some(plan) ==> {
                        let d = q.aggregation->0;
                        &&& d.group_by@.len() == plan.group_by@.len()
                        &&& forall|i: int| 0 <= i < plan.group_by@.len() ==> (#[trigger] d.group_by@[i])@ == strings_bytes(plan.group_by@[i]@)
                        &&& d.metrics@.len() == plan.metrics@.len()
                        &&& forall|i: int| 0 <= i < plan.metrics@.len() ==> metric_converted(plan.metrics@[i], #[trigger] d.metrics@[i])
                    })
                },
                Err(e) => request_fault(*self) == Some(e),
            },
    {
        let filter = match filter_to_domain(&self.filter) {
            Ok(f) => f,
            Err(e) => {
                return Err(e);
            },
        };
        let mut sort: Vec<SortField> = Vec::new();
        let mut i: usize = 0;
        while i < self.sort.len()
            invariant
                i <= self.sort@.len(),
                sort@.len() == i,
                forall|k: int| 0 <= k < i ==> segments_nonempty((#[trigger] self.sort@[k]).path@),
                forall|k: int| 0 <= k < i ==> sort_converted(#[trigger] self.sort@[k], sort@[k]),
                filter_fault(self.filter) is None,
            decreases self.sort@.len() - i,
        {
            match sort_to_domain(&self.sort[i]) {
                Ok(f) => {
                    sort.push(f);
                },
                Err(e) => {
                    proof {
                        assert(!segments_nonempty(self.sort@[i as int].path@));
                        assert(sort_fault(self.sort@));
                    }
                    return Err(e);
                },
            }
            i = i + 1;
        }
        proof {
            assert(!sort_fault(self.sort@));
        }
        let cursor = match &self.cursor {
            None => None,
            Some(c) => match cursor_to_domain(c) {
                Ok(d) => Some(d),
                Err(e) => {
                    return Err(e);
                },
            },
        };
        let aggregation = match &self.aggregation {
            None => None,
            Some(plan) => match aggregation_to_domain(plan) {
                Ok(d) => Some(d),
                Err(e) => {
                    return Err(e);
                },
            },
        };
        Ok(Query { filter, sort, cursor, limit: self.limit as usize, aggregation })
    }
}


// ---------------------------------------------------------------------------
// Query responses.

/// Versioned aggregate metric output.
#[derive(Debug)]
pub enum MetricValueV1 {
    /// Unsigned count.
    Count {
        /// Count value.
        value: u64,
    },
    /// Checked signed integer, represented as decimal to preserve `i128`.
    Integer {
        /// Decimal result, or null for no non-null inputs.
        value: Option<String>,
    },
    /// Minimum or maximum structured value.
    Value {
        /// Result value, or null for no non-null inputs.
        value: Option<JsonValue>,
    },
}

/// Named aggregate result.
#[derive(Debug)]
pub struct NamedMetricResultV1 {
    /// Metric name from the request.
    pub name: String,
    /// Typed metric value.
    pub result: MetricValueV1,
}

/// One aggregation group-key component preserving missing versus explicit
/// null.
#[derive(Debug)]
pub enum GroupKeyValueV1 {
    /// The requested field path did not resolve.
    Missing,
    /// The path resolved, including to explicit null.
    Value {
        /// Natural JSON structured value.
        value: JsonValue,
    },
}

/// One deterministic aggregate group.
#[derive(Debug)]
pub struct GroupResultV1 {
    /// Ordered group values with an explicit missing/null distinction.
    pub key: Vec<GroupKeyValueV1>,
    /// Metric results in request order.
    pub metrics: Vec<NamedMetricResultV1>,
}

/// Complete aggregation response.
#[derive(Debug)]
pub struct AggregationResultV1 {
    /// Whether explicit group fields were requested.
    pub grouped: bool,
    /// Deterministically ordered groups.
    pub groups: Vec<GroupResultV1>,
}

/// Proof-bearing structured query response.
#[derive(Debug)]
pub struct QueryResponseV1 {
    /// Final page rows.
    pub rows: Vec<RecordV1>,
    /// Logical continuation cursor when more rows exist.
    pub next_cursor: Option<CursorV1>,
    /// Optional complete aggregation.
    pub aggregation: Option<AggregationResultV1>,
    /// Records inspected globally.
    pub scanned_records: u64,
    /// Records matching before pagination.
    pub matched_records: u64,
    /// Complete result proof and witness identity.
    pub proof: ProofV1,
}

/// The decimal digit of `d`.
pub open spec fn digit_char(d: int) -> char {
    (48 + d) as char
}

/// The decimal digits of a natural number, without leading zeros.
pub open spec fn decimal_digits(n: nat) -> Seq<char>
    decreases n,
{
    if n < 10 {
        seq![digit_char(n as int)]
    } else {
        decimal_digits(n / 10).push(digit_char((n % 10) as int))
    }
}

/// The decimal text of an integer, with a leading `-` when negative.
pub open spec fn decimal_text(n: int) -> Seq<char> {
    if n < 0 {
        seq!['-'] + decimal_digits((-n) as nat)
    } else {
        decimal_digits(n as nat)
    }
}

fn digit_of(d: u128) -> (c: char)
    requires
        d < 10,
    ensures
        c == digit_char(d as int),
{
    ((48 + d) as u8) as char
}

/// The decimal text of an `i128`.
pub fn i128_decimal(n: i128) -> (r: String)
    ensures
        r@ == decimal_text(n as int),
{
    let magnitude: u128 = if n < 0 {
        ((-(n + 1)) as u128) + 1
    } else {
        n as u128
    };
    let ghost full = if n < 0 { (-(n as int)) as nat } else { n as nat };
    let mut m: u128 = magnitude;
    let mut rev: Vec<char> = Vec::new();
    while m >= 10
        invariant
            magnitude as nat == full,
            m >= 1 || magnitude == 0,
            decimal_digits(full) == decimal_digits(m as nat) + rev@.reverse(),
        decreases m,
    {
        let ghost before = rev@;
        rev.push(digit_of(m % 10));
        proof {
            assert(decimal_digits(m as nat) == decimal_digits((m / 10) as nat).push(digit_char((m % 10) as int)));
            assert(rev@.reverse() =~= seq![digit_char((m % 10) as int)] + before.reverse());
        }
        m = m / 10;
    }
    rev.push(digit_of(m));
    proof {
        assert(decimal_digits(m as nat) == seq![digit_char(m as int)]);
    }
    let mut out = String::new();
    if n < 0 {
        crate::lexical::push_char(&mut out, '-');
    }
    let ghost prefix = out@;
    let mut k: usize = rev.len();
    while k > 0
        invariant
            k <= rev@.len(),
            out@ == prefix + rev@.subrange(k as int, rev@.len() as int).reverse(),
        decreases k,
    {
        let ghost before = out@;
        crate::lexical::push_char(&mut out, rev[k - 1]);
        proof {
            assert(rev@.subrange(k - 1, rev@.len() as int).reverse() =~= rev@.subrange(k as int, rev@.len() as int).reverse().push(rev@[k - 1]));
        }
        k = k - 1;
    }
    proof {
        assert(rev@.subrange(0, rev@.len() as int) =~= rev@);
        assert(decimal_digits(full) =~= rev@.reverse());
    }
    out
}


/// The optional value becomes optional natural JSON.
pub open spec fn optional_json(v: Option<Value>, j: Option<JsonValue>) -> bool {
    match (v, j) {
        (None, None) => true,
        (Some(x), Some(y)) => json_model(y) == domain_json(model_of(x)),
        _ => false,
    }
}

/// `w` is the wire form of the metric value `m`.
pub open spec fn metric_value_converted(m: MetricValue, w: MetricValueV1) -> bool {
    match (m, w) {
        (MetricValue::Count(c), MetricValueV1::Count { value }) => value == c,
        (MetricValue::Integer(o), MetricValueV1::Integer { value }) => match (o, value) {
            (None, None) => true,
            (Some(n), Some(t)) => t@ == decimal_text(n as int),
            _ => false,
        },
        (MetricValue::Value(o), MetricValueV1::Value { value }) => optional_json(o, value),
        _ => false,
    }
}

/// `w` is the wire form of the group `g`.
pub open spec fn group_converted(g: GroupResult, w: GroupResultV1) -> bool {
    &&& w.key@.len() == g.key@.len()
    &&& forall|i: int|
        0 <= i < g.key@.len() ==> match (#[trigger] g.key@[i], w.key@[i]) {
            (None, GroupKeyValueV1::Missing) => true,
            (Some(v), GroupKeyValueV1::Value { value }) => json_model(value) == domain_json(model_of(v)),
            _ => false,
        }
    &&& w.metrics@.len() == g.metrics@.len()
    &&& forall|i: int|
        0 <= i < g.metrics@.len() ==> (#[trigger] w.metrics@[i]).name@ == g.metrics@[i].name@
            && metric_value_converted(g.metrics@[i].value, w.metrics@[i].result)
}

/// `w` is the wire form of the aggregation `a`.
pub open spec fn aggregation_converted(a: AggregationResult, w: AggregationResultV1) -> bool {
    &&& w.grouped == a.grouped
    &&& w.groups@.len() == a.groups@.len()
    &&& forall|i: int| 0 <= i < a.groups@.len() ==> group_converted(#[trigger] a.groups@[i], w.groups@[i])
}

/// `w` is the wire form of the cursor `c`.
pub open spec fn cursor_json_converted(c: Cursor, w: CursorV1) -> bool {
    &&& w.sort_values@.len() == c.sort_values@.len()
    &&& forall|i: int| 0 <= i < c.sort_values@.len() ==> optional_json(#[trigger] c.sort_values@[i], w.sort_values@[i])
    &&& w.key_hex@ == hex_chars(c.key@)
}

fn optional_value_from_domain(v: &Option<Value>) -> (r: Option<JsonValue>)
    ensures
        optional_json(*v, r),
{
    match v {
        None => None,
        Some(x) => Some(value_from_domain(x)),
    }
}

fn metric_from_domain(m: &NamedMetricValue) -> (r: NamedMetricResultV1)
    ensures
        r.name@ == m.name@,
        metric_value_converted(m.value, r.result),
{
    let result = match &m.value {
        MetricValue::Count(c) => MetricValueV1::Count { value: *c },
        MetricValue::Integer(o) => MetricValueV1::Integer {
            value: match o {
                None => None,
                Some(n) => Some(i128_decimal(*n)),
            },
        },
        MetricValue::Value(o) => MetricValueV1::Value { value: optional_value_from_domain(o) },
    };
    NamedMetricResultV1 { name: m.name.clone(), result }
}

fn group_from_domain(g: &GroupResult) -> (r: GroupResultV1)
    ensures
        group_converted(*g, r),
{
    let mut key: Vec<GroupKeyValueV1> = Vec::new();
    let mut i: usize = 0;
    while i < g.key.len()
        invariant
            i <= g.key@.len(),
            key@.len() == i,
            forall|k: int|
                0 <= k < i ==> match (#[trigger] g.key@[k], key@[k]) {
                    (None, GroupKeyValueV1::Missing) => true,
                    (Some(v), GroupKeyValueV1::Value { value }) => json_model(value) == domain_json(model_of(v)),
                    _ => false,
                },
        decreases g.key@.len() - i,
    {
        match &g.key[i] {
            None => key.push(GroupKeyValueV1::Missing),
            Some(v) => key.push(GroupKeyValueV1::Value { value: value_from_domain(v) }),
        }
        i = i + 1;
    }
    let mut metrics: Vec<NamedMetricResultV1> = Vec::new();
    let mut k: usize = 0;
    while k < g.metrics.len()
        invariant
            k <= g.metrics@.len(),
            metrics@.len() == k,
            forall|j: int|
                0 <= j < k ==> (#[trigger] metrics@[j]).name@ == g.metrics@[j].name@ && metric_value_converted(
                    g.metrics@[j].value,
                    metrics@[j].result,
                ),
        decreases g.metrics@.len() - k,
    {
        metrics.push(metric_from_domain(&g.metrics[k]));
        k = k + 1;
    }
    GroupResultV1 { key, metrics }
}

fn aggregation_from_domain(a: &AggregationResult) -> (r: AggregationResultV1)
    ensures
        aggregation_converted(*a, r),
{
    let mut groups: Vec<GroupResultV1> = Vec::new();
    let mut i: usize = 0;
    while i < a.groups.len()
        invariant
            i <= a.groups@.len(),
            groups@.len() == i,
            forall|k: int| 0 <= k < i ==> group_converted(#[trigger] a.groups@[k], groups@[k]),
        decreases a.groups@.len() - i,
    {
        groups.push(group_from_domain(&a.groups[i]));
        i = i + 1;
    }
    AggregationResultV1 { grouped: a.grouped, groups }
}

fn cursor_from_domain(c: &Cursor) -> (r: CursorV1)
    ensures
        cursor_json_converted(*c, r),
{
    let mut values: Vec<Option<JsonValue>> = Vec::new();
    let mut i: usize = 0;
    while i < c.sort_values.len()
        invariant
            i <= c.sort_values@.len(),
            values@.len() == i,
            forall|k: int| 0 <= k < i ==> optional_json(#[trigger] c.sort_values@[k], values@[k]),
        decreases c.sort_values@.len() - i,
    {
        values.push(optional_value_from_domain(&c.sort_values[i]));
        i = i + 1;
    }
    CursorV1 { sort_values: values, key_hex: encode_hex(c.key.as_slice()) }
}

impl QueryResponseV1 {
    /// Converts a query result and its proof into the wire response.
    pub fn from_domain(result: &QueryResult, proof: ProofV1) -> (r: QueryResponseV1)
        ensures
            r.rows@.len() == result.rows@.len(),
            forall|i: int|
                0 <= i < result.rows@.len() ==> (#[trigger] r.rows@[i]).key_hex@ == hex_chars(result.rows@[i].key@)
                    && json_model(r.rows@[i].value) == domain_json(model_of(result.rows@[i].value)),
            result.next_cursor is None <==> r.next_cursor is None,
            result.next_cursor matches Some(c) ==> cursor_json_converted(c, r.next_cursor->0),
            result.aggregation is None <==> r.aggregation is None,
            result.aggregation matches Some(a) ==> aggregation_converted(a, r.aggregation->0),
            r.scanned_records == result.scanned_records,
            r.matched_records == result.matched_records,
            r.proof == proof,
    {
        let mut rows: Vec<RecordV1> = Vec::new();
        let mut i: usize = 0;
        while i < result.rows.len()
            invariant
                i <= result.rows@.len(),
                rows@.len() == i,
                forall|k: int|
                    0 <= k < i ==> (#[trigger] rows@[k]).key_hex@ == hex_chars(result.rows@[k].key@) && json_model(
                        rows@[k].value,
                    ) == domain_json(model_of(result.rows@[k].value)),
            decreases result.rows@.len() - i,
        {
            rows.push(RecordV1::from_domain(&result.rows[i]));
            i = i + 1;
        }
        let next_cursor = match &result.next_cursor {
            None => None,
            Some(c) => Some(cursor_from_domain(c)),
        };
        let aggregation = match &result.aggregation {
            None => None,
            Some(a) => Some(aggregation_from_domain(a)),
        };
        QueryResponseV1 {
            rows,
            next_cursor,
            aggregation,
            scanned_records: result.scanned_records,
            matched_records: result.matched_records,
            proof,
        }
    }
}

} // verus!
