//! Canonical structured values, their mathematical model, the normative total
//! order over them, and exact field paths.
use vstd::prelude::*;
use vstd::string::StringSliceAdditionalSpecFns;
use vstd::utf8::encode_utf8;

use crate::shared::bytes_equal;

verus! {

/// Result of a three-way comparison.
#[derive(Clone, Copy, Debug, PartialEq, Eq, Structural)]
pub enum Comparison {
    /// Strictly before.
    Less,
    /// Equal under the order.
    Equal,
    /// Strictly after.
    Greater,
}

impl Comparison {
    /// The comparison as an integer sign.
    pub open spec fn sign(self) -> int {
        match self {
            Comparison::Less => -1,
            Comparison::Equal => 0,
            Comparison::Greater => 1,
        }
    }

    /// The comparison of the reversed operands.
    pub fn reverse(self) -> (r: Comparison)
        ensures
            r.sign() == -self.sign(),
    {
        match self {
            Comparison::Less => Comparison::Greater,
            Comparison::Equal => Comparison::Equal,
            Comparison::Greater => Comparison::Less,
        }
    }
}

/// Mathematical model of a structured value: strings and object keys are
/// their UTF-8 bytes.
pub enum ValueModel {
    Null,
    Boolean(bool),
    Integer(int),
    Text(Seq<u8>),
    Bytes(Seq<u8>),
    Array(Seq<ValueModel>),
    Object(Seq<(Seq<u8>, ValueModel)>),
}

/// Canonical structured value.
///
/// Variant declaration order is the normative cross-type sort order. Objects
/// are canonical when their entries are in strictly increasing key order
/// (see [`value_canonical`]); binary floating point is intentionally absent.
#[derive(Debug)]
pub enum Value {
    /// Explicit null.
    Null,
    /// Boolean value.
    Boolean(bool),
    /// Signed 64-bit integer.
    Integer(i64),
    /// UTF-8 string.
    String(String),
    /// Opaque binary bytes.
    Bytes(Vec<u8>),
    /// Ordered array.
    Array(Vec<Value>),
    /// Object entries ordered by UTF-8 field name.
    Object(Vec<(String, Value)>),
}

/// The model of a value.
pub open spec fn model_of(v: Value) -> ValueModel
    decreases v,
{
    match v {
        Value::Null => ValueModel::Null,
        Value::Boolean(b) => ValueModel::Boolean(b),
        Value::Integer(i) => ValueModel::Integer(i as int),
        Value::String(s) => ValueModel::Text(encode_utf8(s@)),
        Value::Bytes(b) => ValueModel::Bytes(b@),
        Value::Array(items) => ValueModel::Array(models_of(items@)),
        Value::Object(entries) => ValueModel::Object(entry_models_of(entries@)),
    }
}

/// The models of a sequence of values.
pub open spec fn models_of(items: Seq<Value>) -> Seq<ValueModel>
    decreases items,
{
    if items.len() == 0 {
        Seq::empty()
    } else {
        models_of(items.subrange(0, items.len() - 1)).push(model_of(items[items.len() - 1]))
    }
}

/// The models of a sequence of object entries.
pub open spec fn entry_models_of(entries: Seq<(String, Value)>) -> Seq<(Seq<u8>, ValueModel)>
    decreases entries,
{
    if entries.len() == 0 {
        Seq::empty()
    } else {
        entry_models_of(entries.subrange(0, entries.len() - 1)).push(
            (
                encode_utf8(entries[entries.len() - 1].0@),
                model_of(entries[entries.len() - 1].1),
            ),
        )
    }
}

/// `models_of` preserves length and maps elementwise.
pub proof fn lemma_models_of(items: Seq<Value>)
    ensures
        models_of(items).len() == items.len(),
        forall|i: int| 0 <= i < items.len() ==> #[trigger] models_of(items)[i] == model_of(items[i]),
    decreases items.len(),
{
    if items.len() > 0 {
        lemma_models_of(items.subrange(0, items.len() - 1));
        assert forall|i: int| 0 <= i < items.len() implies #[trigger] models_of(items)[i] == model_of(
            items[i],
        ) by {
            if i < items.len() - 1 {
                assert(items.subrange(0, items.len() - 1)[i] == items[i]);
            }
        }
    }
}

/// `entry_models_of` preserves length and maps elementwise.
pub proof fn lemma_entry_models_of(entries: Seq<(String, Value)>)
    ensures
        entry_models_of(entries).len() == entries.len(),
        forall|i: int|
            0 <= i < entries.len() ==> #[trigger] entry_models_of(entries)[i] == (
                encode_utf8(entries[i].0@),
                model_of(entries[i].1),
            ),
    decreases entries.len(),
{
    if entries.len() > 0 {
        lemma_entry_models_of(entries.subrange(0, entries.len() - 1));
        assert forall|i: int| 0 <= i < entries.len() implies #[trigger] entry_models_of(entries)[i]
            == (encode_utf8(entries[i].0@), model_of(entries[i].1)) by {
            if i < entries.len() - 1 {
                assert(entries.subrange(0, entries.len() - 1)[i] == entries[i]);
            }
        }
    }
}

/// Rank of a model's variant in declaration order.
pub open spec fn variant_rank(v: ValueModel) -> int {
    match v {
        ValueModel::Null => 0,
        ValueModel::Boolean(_) => 1,
        ValueModel::Integer(_) => 2,
        ValueModel::Text(_) => 3,
        ValueModel::Bytes(_) => 4,
        ValueModel::Array(_) => 5,
        ValueModel::Object(_) => 6,
    }
}

/// Sign of the comparison of two integers.
pub open spec fn int_order(a: int, b: int) -> int {
    if a < b {
        -1
    } else if a == b {
        0
    } else {
        1
    }
}

/// Lexicographic comparison of byte strings.
pub open spec fn bytes_order(a: Seq<u8>, b: Seq<u8>) -> int
    decreases a.len(),
{
    if a.len() == 0 {
        if b.len() == 0 {
            0
        } else {
            -1
        }
    } else if b.len() == 0 {
        1
    } else if a[0] != b[0] {
        int_order(a[0] as int, b[0] as int)
    } else {
        bytes_order(a.subrange(1, a.len() as int), b.subrange(1, b.len() as int))
    }
}

/// The normative total order over value models (the sign of the comparison).
pub open spec fn model_order(a: ValueModel, b: ValueModel) -> int
    decreases a,
{
    if variant_rank(a) != variant_rank(b) {
        int_order(variant_rank(a), variant_rank(b))
    } else {
        match (a, b) {
            (ValueModel::Boolean(x), ValueModel::Boolean(y)) => int_order(
                if x { 1int } else { 0int },
                if y { 1int } else { 0int },
            ),
            (ValueModel::Integer(x), ValueModel::Integer(y)) => int_order(x, y),
            (ValueModel::Text(x), ValueModel::Text(y)) => bytes_order(x, y),
            (ValueModel::Bytes(x), ValueModel::Bytes(y)) => bytes_order(x, y),
            (ValueModel::Array(x), ValueModel::Array(y)) => seq_order(x, y),
            (ValueModel::Object(x), ValueModel::Object(y)) => entries_order(x, y),
            _ => 0,
        }
    }
}

/// Lexicographic comparison of sequences of models.
pub open spec fn seq_order(a: Seq<ValueModel>, b: Seq<ValueModel>) -> int
    decreases a,
{
    if a.len() == 0 {
        if b.len() == 0 {
            0
        } else {
            -1
        }
    } else if b.len() == 0 {
        1
    } else {
        let head = model_order(a[0], b[0]);
        if head != 0 {
            head
        } else {
            seq_order(a.subrange(1, a.len() as int), b.subrange(1, b.len() as int))
        }
    }
}

/// Lexicographic comparison of object entries, each by key then value.
pub open spec fn entries_order(a: Seq<(Seq<u8>, ValueModel)>, b: Seq<(Seq<u8>, ValueModel)>) -> int
    decreases a,
{
    if a.len() == 0 {
        if b.len() == 0 {
            0
        } else {
            -1
        }
    } else if b.len() == 0 {
        1
    } else {
        let key = bytes_order(a[0].0, b[0].0);
        if key != 0 {
            key
        } else {
            let head = model_order(a[0].1, b[0].1);
            if head != 0 {
                head
            } else {
                entries_order(a.subrange(1, a.len() as int), b.subrange(1, b.len() as int))
            }
        }
    }
}

/// Strictly increasing object keys under byte order.
pub open spec fn keys_strictly_sorted(entries: Seq<(Seq<u8>, ValueModel)>) -> bool {
    forall|i: int, j: int|
        0 <= i < j < entries.len() ==> bytes_order(#[trigger] entries[i].0, #[trigger] entries[j].0) < 0
}

/// A canonical model: every object has strictly increasing keys.
pub open spec fn model_canonical(v: ValueModel) -> bool
    decreases v,
{
    match v {
        ValueModel::Array(items) => forall|i: int|
            0 <= i < items.len() ==> model_canonical(#[trigger] items[i]),
        ValueModel::Object(entries) => keys_strictly_sorted(entries) && forall|i: int|
            0 <= i < entries.len() ==> model_canonical(#[trigger] entries[i].1),
        _ => true,
    }
}

// ---------------------------------------------------------------------------
// Laws of the order.

/// `bytes_order` is antisymmetric and zero exactly on equal inputs.
pub proof fn lemma_bytes_order_antisym(a: Seq<u8>, b: Seq<u8>)
    ensures
        bytes_order(a, b) == -bytes_order(b, a),
        -1 <= bytes_order(a, b) <= 1,
        (bytes_order(a, b) == 0) == (a == b),
    decreases a.len(),
{
    if a.len() > 0 && b.len() > 0 && a[0] == b[0] {
        lemma_bytes_order_antisym(a.subrange(1, a.len() as int), b.subrange(1, b.len() as int));
        if a.subrange(1, a.len() as int) == b.subrange(1, b.len() as int) {
            assert(a =~= b.subrange(0, 1) + b.subrange(1, b.len() as int));
            assert(b =~= b.subrange(0, 1) + b.subrange(1, b.len() as int));
        }
    }
    if a.len() > 0 && b.len() > 0 && a == b {
        assert(a[0] == b[0]);
    }
    if a.len() == 0 && b.len() == 0 {
        assert(a =~= b);
    }
}

/// `bytes_order` is transitive.
pub proof fn lemma_bytes_order_trans(a: Seq<u8>, b: Seq<u8>, c: Seq<u8>)
    requires
        bytes_order(a, b) <= 0,
        bytes_order(b, c) <= 0,
    ensures
        bytes_order(a, c) <= 0,
        bytes_order(a, b) < 0 || bytes_order(b, c) < 0 ==> bytes_order(a, c) < 0,
    decreases a.len(),
{
    lemma_bytes_order_antisym(a, b);
    lemma_bytes_order_antisym(b, c);
    lemma_bytes_order_antisym(a, c);
    if a.len() > 0 && b.len() > 0 && c.len() > 0 && a[0] == b[0] && b[0] == c[0] {
        lemma_bytes_order_trans(
            a.subrange(1, a.len() as int),
            b.subrange(1, b.len() as int),
            c.subrange(1, c.len() as int),
        );
    }
}

/// The value order is antisymmetric, bounded, and zero exactly on equal models.
pub proof fn lemma_model_order_antisym(a: ValueModel, b: ValueModel)
    ensures
        model_order(a, b) == -model_order(b, a),
        -1 <= model_order(a, b) <= 1,
        (model_order(a, b) == 0) == (a == b),
    decreases a,
{
    if variant_rank(a) == variant_rank(b) {
        match (a, b) {
            (ValueModel::Text(x), ValueModel::Text(y)) => lemma_bytes_order_antisym(x, y),
            (ValueModel::Bytes(x), ValueModel::Bytes(y)) => lemma_bytes_order_antisym(x, y),
            (ValueModel::Array(x), ValueModel::Array(y)) => lemma_seq_order_antisym(x, y),
            (ValueModel::Object(x), ValueModel::Object(y)) => lemma_entries_order_antisym(x, y),
            _ => {},
        }
    }
}

/// Lexicographic sequence comparison is antisymmetric and exact.
pub proof fn lemma_seq_order_antisym(a: Seq<ValueModel>, b: Seq<ValueModel>)
    ensures
        seq_order(a, b) == -seq_order(b, a),
        -1 <= seq_order(a, b) <= 1,
        (seq_order(a, b) == 0) == (a == b),
    decreases a,
{
    if a.len() > 0 && b.len() > 0 {
        lemma_model_order_antisym(a[0], b[0]);
        lemma_seq_order_antisym(a.subrange(1, a.len() as int), b.subrange(1, b.len() as int));
        if a[0] == b[0] && a.subrange(1, a.len() as int) == b.subrange(1, b.len() as int) {
            assert(a =~= seq![a[0]] + a.subrange(1, a.len() as int));
            assert(b =~= seq![b[0]] + b.subrange(1, b.len() as int));
        }
        if a == b {
            assert(a[0] == b[0]);
        }
    }
    if a.len() == 0 && b.len() == 0 {
        assert(a =~= b);
    }
}

/// Lexicographic entry comparison is antisymmetric and exact.
pub proof fn lemma_entries_order_antisym(a: Seq<(Seq<u8>, ValueModel)>, b: Seq<(Seq<u8>, ValueModel)>)
    ensures
        entries_order(a, b) == -entries_order(b, a),
        -1 <= entries_order(a, b) <= 1,
        (entries_order(a, b) == 0) == (a == b),
    decreases a,
{
    if a.len() > 0 && b.len() > 0 {
        lemma_bytes_order_antisym(a[0].0, b[0].0);
        lemma_model_order_antisym(a[0].1, b[0].1);
        lemma_entries_order_antisym(a.subrange(1, a.len() as int), b.subrange(1, b.len() as int));
        if a[0] == b[0] && a.subrange(1, a.len() as int) == b.subrange(1, b.len() as int) {
            assert(a =~= seq![a[0]] + a.subrange(1, a.len() as int));
            assert(b =~= seq![b[0]] + b.subrange(1, b.len() as int));
        }
        if a == b {
            assert(a[0] == b[0]);
        }
    }
    if a.len() == 0 && b.len() == 0 {
        assert(a =~= b);
    }
}

/// The value order is transitive.
pub proof fn lemma_model_order_trans(a: ValueModel, b: ValueModel, c: ValueModel)
    requires
        model_order(a, b) <= 0,
        model_order(b, c) <= 0,
    ensures
        model_order(a, c) <= 0,
        model_order(a, b) < 0 || model_order(b, c) < 0 ==> model_order(a, c) < 0,
    decreases a,
{
    lemma_model_order_antisym(a, b);
    lemma_model_order_antisym(b, c);
    lemma_model_order_antisym(a, c);
    if variant_rank(a) == variant_rank(b) && variant_rank(b) == variant_rank(c) {
        match (a, b, c) {
            (ValueModel::Text(x), ValueModel::Text(y), ValueModel::Text(z)) => lemma_bytes_order_trans(
                x,
                y,
                z,
            ),
            (ValueModel::Bytes(x), ValueModel::Bytes(y), ValueModel::Bytes(z)) => lemma_bytes_order_trans(
                x,
                y,
                z,
            ),
            (ValueModel::Array(x), ValueModel::Array(y), ValueModel::Array(z)) => lemma_seq_order_trans(
                x,
                y,
                z,
            ),
            (ValueModel::Object(x), ValueModel::Object(y), ValueModel::Object(z)) => lemma_entries_order_trans(
                x,
                y,
                z,
            ),
            _ => {},
        }
    }
}

/// Lexicographic sequence comparison is transitive.
pub proof fn lemma_seq_order_trans(a: Seq<ValueModel>, b: Seq<ValueModel>, c: Seq<ValueModel>)
    requires
        seq_order(a, b) <= 0,
        seq_order(b, c) <= 0,
    ensures
        seq_order(a, c) <= 0,
        seq_order(a, b) < 0 || seq_order(b, c) < 0 ==> seq_order(a, c) < 0,
    decreases a,
{
    lemma_seq_order_antisym(a, b);
    lemma_seq_order_antisym(b, c);
    lemma_seq_order_antisym(a, c);
    if a.len() > 0 && b.len() > 0 && c.len() > 0 {
        lemma_model_order_antisym(a[0], b[0]);
        lemma_model_order_antisym(b[0], c[0]);
        lemma_model_order_antisym(a[0], c[0]);
        if model_order(a[0], b[0]) <= 0 && model_order(b[0], c[0]) <= 0 {
            lemma_model_order_trans(a[0], b[0], c[0]);
        }
        if a[0] == b[0] && b[0] == c[0] {
            lemma_seq_order_trans(
                a.subrange(1, a.len() as int),
                b.subrange(1, b.len() as int),
                c.subrange(1, c.len() as int),
            );
        }
    }
}

/// Lexicographic entry comparison is transitive.
pub proof fn lemma_entries_order_trans(
    a: Seq<(Seq<u8>, ValueModel)>,
    b: Seq<(Seq<u8>, ValueModel)>,
    c: Seq<(Seq<u8>, ValueModel)>,
)
    requires
        entries_order(a, b) <= 0,
        entries_order(b, c) <= 0,
    ensures
        entries_order(a, c) <= 0,
        entries_order(a, b) < 0 || entries_order(b, c) < 0 ==> entries_order(a, c) < 0,
    decreases a,
{
    lemma_entries_order_antisym(a, b);
    lemma_entries_order_antisym(b, c);
    lemma_entries_order_antisym(a, c);
    if a.len() > 0 && b.len() > 0 && c.len() > 0 {
        lemma_bytes_order_antisym(a[0].0, b[0].0);
        lemma_bytes_order_antisym(b[0].0, c[0].0);
        lemma_bytes_order_antisym(a[0].0, c[0].0);
        lemma_model_order_antisym(a[0].1, b[0].1);
        lemma_model_order_antisym(b[0].1, c[0].1);
        lemma_model_order_antisym(a[0].1, c[0].1);
        if bytes_order(a[0].0, b[0].0) <= 0 && bytes_order(b[0].0, c[0].0) <= 0 {
            lemma_bytes_order_trans(a[0].0, b[0].0, c[0].0);
        }
        if a[0].0 == b[0].0 && b[0].0 == c[0].0 && model_order(a[0].1, b[0].1) <= 0 && model_order(
            b[0].1,
            c[0].1,
        ) <= 0 {
            lemma_model_order_trans(a[0].1, b[0].1, c[0].1);
        }
        if a[0] == b[0] && b[0] == c[0] {
            lemma_entries_order_trans(
                a.subrange(1, a.len() as int),
                b.subrange(1, b.len() as int),
                c.subrange(1, c.len() as int),
            );
        }
    }
}

// ---------------------------------------------------------------------------
// Executable comparison.

/// Lexicographic comparison of two byte slices.
pub fn compare_bytes(a: &[u8], b: &[u8]) -> (r: Comparison)
    ensures
        r.sign() == bytes_order(a@, b@),
{
    let mut i: usize = 0;
    proof {
        assert(a@.subrange(0, a@.len() as int) =~= a@);
        assert(b@.subrange(0, b@.len() as int) =~= b@);
    }
    while i < a.len() && i < b.len()
        invariant
            i <= a@.len(),
            i <= b@.len(),
            bytes_order(a@, b@) == bytes_order(
                a@.subrange(i as int, a@.len() as int),
                b@.subrange(i as int, b@.len() as int),
            ),
        decreases a@.len() - i,
    {
        let x = a[i];
        let y = b[i];
        proof {
            let sa = a@.subrange(i as int, a@.len() as int);
            let sb = b@.subrange(i as int, b@.len() as int);
            assert(sa[0] == x);
            assert(sb[0] == y);
            assert(sa.subrange(1, sa.len() as int) =~= a@.subrange(i + 1, a@.len() as int));
            assert(sb.subrange(1, sb.len() as int) =~= b@.subrange(i + 1, b@.len() as int));
        }
        if x < y {
            return Comparison::Less;
        }
        if x > y {
            return Comparison::Greater;
        }
        i = i + 1;
    }
    if i < a.len() {
        Comparison::Greater
    } else if i < b.len() {
        Comparison::Less
    } else {
        Comparison::Equal
    }
}

/// Byte-order comparison of two strings.
pub fn compare_strings(a: &str, b: &str) -> (r: Comparison)
    ensures
        r.sign() == bytes_order(a.spec_bytes(), b.spec_bytes()),
{
    compare_bytes(a.as_bytes(), b.as_bytes())
}

fn compare_ints(a: i64, b: i64) -> (r: Comparison)
    ensures
        r.sign() == int_order(a as int, b as int),
{
    if a < b {
        Comparison::Less
    } else if a == b {
        Comparison::Equal
    } else {
        Comparison::Greater
    }
}

fn variant_index(v: &Value) -> (r: u8)
    ensures
        r as int == variant_rank(model_of(*v)),
{
    match v {
        Value::Null => 0,
        Value::Boolean(_) => 1,
        Value::Integer(_) => 2,
        Value::String(_) => 3,
        Value::Bytes(_) => 4,
        Value::Array(_) => 5,
        Value::Object(_) => 6,
    }
}

/// Whether every object inside a value has strictly increasing keys.
pub fn value_canonical(v: &Value) -> (r: bool)
    ensures
        r == model_canonical(model_of(*v)),
    decreases v,
{
    match v {
        Value::Array(items) => items_canonical(items),
        Value::Object(entries) => entries_canonical(entries),
        _ => true,
    }
}

fn items_canonical(items: &Vec<Value>) -> (r: bool)
    ensures
        r == model_canonical(ValueModel::Array(models_of(items@))),
    decreases items,
{
    proof {
        lemma_models_of(items@);
    }
    let ghost ms = models_of(items@);
    let mut i: usize = 0;
    while i < items.len()
        invariant
            i <= items@.len(),
            ms == models_of(items@),
            ms.len() == items@.len(),
            forall|k: int| 0 <= k < items@.len() ==> #[trigger] ms[k] == model_of(items@[k]),
            forall|k: int| 0 <= k < i ==> model_canonical(#[trigger] ms[k]),
        decreases items@.len() - i,
    {
        if !value_canonical(&items[i]) {
            proof {
                assert(!model_canonical(ms[i as int]));
                let m = ValueModel::Array(ms);
                assert(m matches ValueModel::Array(xs) && xs == ms);
                assert(model_canonical(m) == (forall|k: int| 0 <= k < ms.len() ==> model_canonical(#[trigger] ms[k])));
            }
            return false;
        }
        i = i + 1;
    }
    true
}

fn entries_canonical(entries: &Vec<(String, Value)>) -> (r: bool)
    ensures
        r == model_canonical(ValueModel::Object(entry_models_of(entries@))),
    decreases entries,
{
    let ghost es = entry_models_of(entries@);
    proof {
        lemma_entry_models_of(entries@);
    }
    let mut i: usize = 0;
    while i < entries.len()
        invariant
            i <= entries@.len(),
            es == entry_models_of(entries@),
            es.len() == entries@.len(),
            forall|k: int| 0 <= k < entries@.len() ==> #[trigger] es[k] == (
                encode_utf8(entries@[k].0@),
                model_of(entries@[k].1),
            ),
            forall|a: int, b: int| 0 <= a < b < i ==> bytes_order(#[trigger] es[a].0, #[trigger] es[b].0) < 0,
            forall|k: int| 0 <= k < i ==> model_canonical(#[trigger] es[k].1),
        decreases entries@.len() - i,
    {
        if i > 0 {
            let c = compare_strings(entries[i - 1].0.as_str(), entries[i].0.as_str());
            let ordered = match c {
                Comparison::Less => true,
                _ => false,
            };
            if !ordered {
                proof {
                    assert(bytes_order(es[i - 1].0, es[i as int].0) >= 0);
                    assert(!keys_strictly_sorted(es));
                }
                return false;
            }
            proof {
                assert forall|a: int, b: int| 0 <= a < b < i + 1 implies bytes_order(#[trigger] es[a].0, #[trigger] es[b].0) < 0 by {
                    if b == i && a < i - 1 {
                        lemma_bytes_order_trans(es[a].0, es[i - 1].0, es[b].0);
                    }
                }
            }
        }
        if !value_canonical(&entries[i].1) {
            proof {
                assert(!model_canonical(es[i as int].1));
            }
            return false;
        }
        i = i + 1;
    }
    proof {
        assert(keys_strictly_sorted(es));
    }
    true
}

/// Compares two values under the normative total order.
pub fn compare_values(a: &Value, b: &Value) -> (r: Comparison)
    ensures
        r.sign() == model_order(model_of(*a), model_of(*b)),
    decreases a,
{
    let ra = variant_index(a);
    let rb = variant_index(b);
    if ra < rb {
        return Comparison::Less;
    }
    if ra > rb {
        return Comparison::Greater;
    }
    match (a, b) {
        (Value::Null, Value::Null) => Comparison::Equal,
        (Value::Boolean(x), Value::Boolean(y)) => {
            if *x == *y {
                Comparison::Equal
            } else if !*x {
                Comparison::Less
            } else {
                Comparison::Greater
            }
        },
        (Value::Integer(x), Value::Integer(y)) => compare_ints(*x, *y),
        (Value::String(x), Value::String(y)) => compare_strings(x.as_str(), y.as_str()),
        (Value::Bytes(x), Value::Bytes(y)) => compare_bytes(x.as_slice(), y.as_slice()),
        (Value::Array(x), Value::Array(y)) => {
            proof {
                lemma_models_of(x@);
                lemma_models_of(y@);
            }
            compare_value_seqs(x, y)
        },
        (Value::Object(x), Value::Object(y)) => {
            proof {
                lemma_entry_models_of(x@);
                lemma_entry_models_of(y@);
            }
            compare_entry_seqs(x, y)
        },
        _ => Comparison::Equal,
    }
}

fn compare_value_seqs(a: &Vec<Value>, b: &Vec<Value>) -> (r: Comparison)
    ensures
        r.sign() == seq_order(models_of(a@), models_of(b@)),
    decreases a,
{
    proof {
        lemma_models_of(a@);
        lemma_models_of(b@);
    }
    let ghost ma = models_of(a@);
    let ghost mb = models_of(b@);
    let mut i: usize = 0;
    proof {
        assert(ma.subrange(0, ma.len() as int) =~= ma);
        assert(mb.subrange(0, mb.len() as int) =~= mb);
    }
    while i < a.len() && i < b.len()
        invariant
            i <= a@.len(),
            i <= b@.len(),
            ma == models_of(a@),
            mb == models_of(b@),
            ma.len() == a@.len(),
            mb.len() == b@.len(),
            forall|k: int| 0 <= k < a@.len() ==> #[trigger] ma[k] == model_of(a@[k]),
            forall|k: int| 0 <= k < b@.len() ==> #[trigger] mb[k] == model_of(b@[k]),
            seq_order(ma, mb) == seq_order(
                ma.subrange(i as int, ma.len() as int),
                mb.subrange(i as int, mb.len() as int),
            ),
        decreases a@.len() - i,
    {
        let head = compare_values(&a[i], &b[i]);
        proof {
            let sa = ma.subrange(i as int, ma.len() as int);
            let sb = mb.subrange(i as int, mb.len() as int);
            assert(sa[0] == ma[i as int]);
            assert(sb[0] == mb[i as int]);
            assert(ma[i as int] == model_of(a@[i as int]));
            assert(mb[i as int] == model_of(b@[i as int]));
            assert(head.sign() == model_order(sa[0], sb[0]));
            assert(head.sign() != 0 ==> seq_order(sa, sb) == head.sign());
            assert(sa.subrange(1, sa.len() as int) =~= ma.subrange(i + 1, ma.len() as int));
            assert(sb.subrange(1, sb.len() as int) =~= mb.subrange(i + 1, mb.len() as int));
        }
        match head {
            Comparison::Equal => {},
            _ => {
                return head;
            },
        }
        i = i + 1;
    }
    if i < a.len() {
        Comparison::Greater
    } else if i < b.len() {
        Comparison::Less
    } else {
        Comparison::Equal
    }
}

fn compare_entry_seqs(a: &Vec<(String, Value)>, b: &Vec<(String, Value)>) -> (r: Comparison)
    ensures
        r.sign() == entries_order(entry_models_of(a@), entry_models_of(b@)),
    decreases a,
{
    proof {
        lemma_entry_models_of(a@);
        lemma_entry_models_of(b@);
    }
    let ghost ma = entry_models_of(a@);
    let ghost mb = entry_models_of(b@);
    let mut i: usize = 0;
    proof {
        assert(ma.subrange(0, ma.len() as int) =~= ma);
        assert(mb.subrange(0, mb.len() as int) =~= mb);
    }
    while i < a.len() && i < b.len()
        invariant
            i <= a@.len(),
            i <= b@.len(),
            ma == entry_models_of(a@),
            mb == entry_models_of(b@),
            ma.len() == a@.len(),
            mb.len() == b@.len(),
            forall|k: int|
                0 <= k < a@.len() ==> #[trigger] ma[k] == (encode_utf8(a@[k].0@), model_of(a@[k].1)),
            forall|k: int|
                0 <= k < b@.len() ==> #[trigger] mb[k] == (encode_utf8(b@[k].0@), model_of(b@[k].1)),
            entries_order(ma, mb) == entries_order(
                ma.subrange(i as int, ma.len() as int),
                mb.subrange(i as int, mb.len() as int),
            ),
        decreases a@.len() - i,
    {
        let key = compare_strings(a[i].0.as_str(), b[i].0.as_str());
        let head = compare_values(&a[i].1, &b[i].1);
        proof {
            let sa = ma.subrange(i as int, ma.len() as int);
            let sb = mb.subrange(i as int, mb.len() as int);
            assert(sa[0] == ma[i as int]);
            assert(sb[0] == mb[i as int]);
            assert(ma[i as int] == (encode_utf8(a@[i as int].0@), model_of(a@[i as int].1)));
            assert(mb[i as int] == (encode_utf8(b@[i as int].0@), model_of(b@[i as int].1)));
            assert(key.sign() == bytes_order(sa[0].0, sb[0].0));
            assert(head.sign() == model_order(sa[0].1, sb[0].1));
            assert(key.sign() != 0 ==> entries_order(sa, sb) == key.sign());
            assert(key.sign() == 0 && head.sign() != 0 ==> entries_order(sa, sb) == head.sign());
            assert(sa.subrange(1, sa.len() as int) =~= ma.subrange(i + 1, ma.len() as int));
            assert(sb.subrange(1, sb.len() as int) =~= mb.subrange(i + 1, mb.len() as int));
        }
        match key {
            Comparison::Equal => {},
            _ => {
                return key;
            },
        }
        match head {
            Comparison::Equal => {},
            _ => {
                return head;
            },
        }
        i = i + 1;
    }
    if i < a.len() {
        Comparison::Greater
    } else if i < b.len() {
        Comparison::Less
    } else {
        Comparison::Equal
    }
}

/// Exact type-and-value equality.
pub fn values_equal(a: &Value, b: &Value) -> (r: bool)
    ensures
        r == (model_of(*a) == model_of(*b)),
{
    proof {
        lemma_model_order_antisym(model_of(*a), model_of(*b));
    }
    match compare_values(a, b) {
        Comparison::Equal => true,
        _ => false,
    }
}

/// An owned copy of a byte slice.
pub fn copy_bytes(bytes: &[u8]) -> (r: Vec<u8>)
    ensures
        r@ == bytes@,
{
    let mut out: Vec<u8> = Vec::with_capacity(bytes.len());
    let mut i: usize = 0;
    while i < bytes.len()
        invariant
            i <= bytes@.len(),
            out@ == bytes@.subrange(0, i as int),
        decreases bytes@.len() - i,
    {
        out.push(bytes[i]);
        i = i + 1;
    }
    proof {
        assert(out@ =~= bytes@);
    }
    out
}

impl Value {
    /// A deep copy with the same model.
    pub fn duplicate(&self) -> (r: Value)
        ensures
            model_of(r) == model_of(*self),
        decreases self,
    {
        match self {
            Value::Null => Value::Null,
            Value::Boolean(b) => Value::Boolean(*b),
            Value::Integer(i) => Value::Integer(*i),
            Value::String(s) => Value::String(s.clone()),
            Value::Bytes(b) => Value::Bytes(copy_bytes(b.as_slice())),
            Value::Array(items) => Value::Array(duplicate_values(items)),
            Value::Object(entries) => Value::Object(duplicate_entries(entries)),
        }
    }
}

fn duplicate_values(items: &Vec<Value>) -> (out: Vec<Value>)
    ensures
        models_of(out@) == models_of(items@),
    decreases items,
{
    let mut out: Vec<Value> = Vec::with_capacity(items.len());
    let mut i: usize = 0;
    proof {
        lemma_models_of(items@);
    }
    while i < items.len()
        invariant
            i <= items@.len(),
            out@.len() == i,
            forall|k: int| 0 <= k < i ==> model_of(#[trigger] out@[k]) == model_of(items@[k]),
        decreases items@.len() - i,
    {
        let copy = items[i].duplicate();
        out.push(copy);
        i = i + 1;
    }
    proof {
        lemma_models_of(out@);
        lemma_models_of(items@);
        assert(models_of(out@) =~= models_of(items@));
    }
    out
}

fn duplicate_entries(entries: &Vec<(String, Value)>) -> (out: Vec<(String, Value)>)
    ensures
        entry_models_of(out@) == entry_models_of(entries@),
    decreases entries,
{
    let mut out: Vec<(String, Value)> = Vec::with_capacity(entries.len());
    let mut i: usize = 0;
    while i < entries.len()
        invariant
            i <= entries@.len(),
            out@.len() == i,
            forall|k: int|
                0 <= k < i ==> (#[trigger] out@[k]).0@ == entries@[k].0@ && model_of(out@[k].1)
                    == model_of(entries@[k].1),
        decreases entries@.len() - i,
    {
        let key = entries[i].0.clone();
        let copy = entries[i].1.duplicate();
        out.push((key, copy));
        i = i + 1;
    }
    proof {
        lemma_entry_models_of(out@);
        lemma_entry_models_of(entries@);
        assert(entry_models_of(out@) =~= entry_models_of(entries@));
    }
    out
}

impl Clone for Value {
    fn clone(&self) -> (r: Self)
        ensures
            model_of(r) == model_of(*self),
    {
        self.duplicate()
    }
}

impl PartialEq for Value {
    fn eq(&self, other: &Self) -> (r: bool) {
        values_equal(self, other)
    }
}

impl Eq for Value {
}

impl vstd::std_specs::cmp::PartialEqSpecImpl for Value {
    open spec fn obeys_eq_spec() -> bool {
        true
    }

    open spec fn eq_spec(&self, other: &Self) -> bool {
        model_of(*self) == model_of(*other)
    }
}

/// The first entry value stored under `key`, if any.
pub open spec fn object_lookup(entries: Seq<(Seq<u8>, ValueModel)>, key: Seq<u8>) -> Option<ValueModel>
    decreases entries.len(),
{
    if entries.len() == 0 {
        None
    } else if entries[0].0 == key {
        Some(entries[0].1)
    } else {
        object_lookup(entries.subrange(1, entries.len() as int), key)
    }
}

/// Resolution of an exact field path: `None` for a missing field or a
/// traversal through a non-object value; the empty path selects the root.
pub open spec fn resolve_model(root: ValueModel, path: Seq<Seq<u8>>) -> Option<ValueModel>
    decreases path.len(),
{
    if path.len() == 0 {
        Some(root)
    } else {
        match root {
            ValueModel::Object(entries) => match object_lookup(entries, path[0]) {
                Some(child) => resolve_model(child, path.subrange(1, path.len() as int)),
                None => None,
            },
            _ => None,
        }
    }
}

/// The UTF-8 bytes of each string.
pub open spec fn strings_bytes(strings: Seq<String>) -> Seq<Seq<u8>> {
    Seq::new(strings.len(), |i: int| encode_utf8(strings[i]@))
}

/// Exact object-field path. An empty path selects the root value.
#[derive(Debug, Default)]
pub struct FieldPath {
    segments: Vec<String>,
}

impl View for FieldPath {
    type V = Seq<Seq<u8>>;

    /// The UTF-8 bytes of each segment.
    closed spec fn view(&self) -> Seq<Seq<u8>> {
        strings_bytes(self.segments@)
    }
}

impl FieldPath {
    /// Creates a path from exact object field names.
    pub fn new(segments: Vec<String>) -> (r: FieldPath)
        ensures
            r@ == strings_bytes(segments@),
    {
        FieldPath { segments }
    }

    /// Creates a single-field path.
    pub fn field(name: &str) -> (r: FieldPath)
        ensures
            r@ == seq![name.spec_bytes()],
    {
        let mut segments: Vec<String> = Vec::new();
        segments.push(name.to_owned());
        let r = FieldPath { segments };
        proof {
            assert(r@ =~= seq![name.spec_bytes()]);
        }
        r
    }

    /// Returns the exact path segments.
    pub fn segments(&self) -> (r: &[String])
        ensures
            strings_bytes(r@) == self@,
    {
        self.segments.as_slice()
    }

    /// A copy of this path.
    pub fn duplicate(&self) -> (r: FieldPath)
        ensures
            r@ == self@,
    {
        let mut segments: Vec<String> = Vec::with_capacity(self.segments.len());
        let mut i: usize = 0;
        while i < self.segments.len()
            invariant
                i <= self.segments@.len(),
                segments@.len() == i,
                forall|k: int| 0 <= k < i ==> #[trigger] segments@[k] == self.segments@[k],
            decreases self.segments@.len() - i,
        {
            segments.push(self.segments[i].clone());
            i = i + 1;
        }
        let r = FieldPath { segments };
        proof {
            assert(r@ =~= self@);
        }
        r
    }

    /// Resolves this path, returning `None` for a missing field or traversal
    /// through a non-object value.
    pub fn resolve<'a>(&self, root: &'a Value) -> (r: Option<&'a Value>)
        ensures
            match r {
                Some(v) => resolve_model(model_of(*root), self@) == Some(model_of(*v)),
                None => resolve_model(model_of(*root), self@) is None,
            },
    {
        let ghost path = self@;
        let mut current: &'a Value = root;
        let mut i: usize = 0;
        proof {
            assert(path.subrange(0, path.len() as int) =~= path);
        }
        while i < self.segments.len()
            invariant
                i <= self.segments@.len(),
                path == self@,
                path.len() == self.segments@.len(),
                forall|k: int| 0 <= k < path.len() ==> #[trigger] path[k] == encode_utf8(self.segments@[k]@),
                resolve_model(model_of(*root), path) == resolve_model(
                    model_of(*current),
                    path.subrange(i as int, path.len() as int),
                ),
            decreases self.segments@.len() - i,
        {
            let rest = Ghost(path.subrange(i as int, path.len() as int));
            proof {
                assert(rest@[0] == path[i as int]);
                assert(rest@.subrange(1, rest@.len() as int) =~= path.subrange(i + 1, path.len() as int));
            }
            match current {
                Value::Object(entries) => {
                    proof {
                        lemma_entry_models_of(entries@);
                    }
                    match find_entry(entries, self.segments[i].as_str()) {
                        Some(child) => {
                            current = child;
                        },
                        None => {
                            return None;
                        },
                    }
                },
                _ => {
                    return None;
                },
            }
            i = i + 1;
        }
        Some(current)
    }
}

/// The value of the first entry whose key equals `key`.
pub fn find_entry<'a>(entries: &'a Vec<(String, Value)>, key: &str) -> (r: Option<&'a Value>)
    ensures
        match r {
            Some(v) => object_lookup(entry_models_of(entries@), key.spec_bytes()) == Some(model_of(*v)),
            None => object_lookup(entry_models_of(entries@), key.spec_bytes()) is None,
        },
{
    proof {
        lemma_entry_models_of(entries@);
    }
    let ghost m = entry_models_of(entries@);
    let mut i: usize = 0;
    proof {
        assert(m.subrange(0, m.len() as int) =~= m);
    }
    while i < entries.len()
        invariant
            i <= entries@.len(),
            m == entry_models_of(entries@),
            m.len() == entries@.len(),
            forall|k: int|
                0 <= k < entries@.len() ==> #[trigger] m[k] == (encode_utf8(entries@[k].0@), model_of(entries@[k].1)),
            object_lookup(m, key.spec_bytes()) == object_lookup(m.subrange(i as int, m.len() as int), key.spec_bytes()),
        decreases entries@.len() - i,
    {
        let found = bytes_equal(entries[i].0.as_str().as_bytes(), key.as_bytes());
        proof {
            let rest = m.subrange(i as int, m.len() as int);
            assert(rest[0] == m[i as int]);
            assert(rest.subrange(1, rest.len() as int) =~= m.subrange(i + 1, m.len() as int));
        }
        if found {
            return Some(&entries[i].1);
        }
        i = i + 1;
    }
    None
}

// ---------------------------------------------------------------------------
// The order of field paths.

/// Lexicographic order of paths: segment by segment in byte order, a proper
/// prefix first.
pub open spec fn path_order(a: Seq<Seq<u8>>, b: Seq<Seq<u8>>) -> int
    decreases a.len(),
{
    if a.len() == 0 {
        if b.len() == 0 {
            0
        } else {
            -1
        }
    } else if b.len() == 0 {
        1
    } else if bytes_order(a[0], b[0]) != 0 {
        bytes_order(a[0], b[0])
    } else {
        path_order(a.drop_first(), b.drop_first())
    }
}

/// `path_order` is antisymmetric and zero exactly on equal paths.
pub proof fn lemma_path_order_antisym(a: Seq<Seq<u8>>, b: Seq<Seq<u8>>)
    ensures
        path_order(a, b) == -path_order(b, a),
        -1 <= path_order(a, b) <= 1,
        (path_order(a, b) == 0) == (a == b),
    decreases a.len(),
{
    if a.len() > 0 && b.len() > 0 {
        lemma_bytes_order_antisym(a[0], b[0]);
        lemma_path_order_antisym(a.drop_first(), b.drop_first());
        if a[0] == b[0] && a.drop_first() == b.drop_first() {
            assert(a =~= seq![a[0]] + a.drop_first());
            assert(b =~= seq![b[0]] + b.drop_first());
        }
        if a == b {
            assert(a.drop_first() =~= b.drop_first());
        }
    }
    if a.len() == 0 && b.len() == 0 {
        assert(a =~= b);
    }
}

/// `path_order` is transitive.
pub proof fn lemma_path_order_trans(a: Seq<Seq<u8>>, b: Seq<Seq<u8>>, c: Seq<Seq<u8>>)
    requires
        path_order(a, b) <= 0,
        path_order(b, c) <= 0,
    ensures
        path_order(a, c) <= 0,
        path_order(a, b) < 0 || path_order(b, c) < 0 ==> path_order(a, c) < 0,
    decreases a.len(),
{
    lemma_path_order_antisym(a, b);
    lemma_path_order_antisym(b, c);
    lemma_path_order_antisym(a, c);
    if a.len() > 0 && b.len() > 0 && c.len() > 0 {
        lemma_bytes_order_antisym(a[0], b[0]);
        lemma_bytes_order_antisym(b[0], c[0]);
        lemma_bytes_order_antisym(a[0], c[0]);
        if bytes_order(a[0], b[0]) <= 0 && bytes_order(b[0], c[0]) <= 0 {
            lemma_bytes_order_trans(a[0], b[0], c[0]);
        }
        if a[0] == b[0] && b[0] == c[0] {
            lemma_path_order_trans(a.drop_first(), b.drop_first(), c.drop_first());
        }
    }
}

/// Compares two paths in path order.
pub fn compare_paths(a: &FieldPath, b: &FieldPath) -> (r: Comparison)
    ensures
        r.sign() == path_order(a@, b@),
{
    let sa = a.segments();
    let sb = b.segments();
    let ghost va = a@;
    let ghost vb = b@;
    let mut i: usize = 0;
    proof {
        assert(va.skip(0) =~= va);
        assert(vb.skip(0) =~= vb);
    }
    while i < sa.len() && i < sb.len()
        invariant
            va == a@,
            vb == b@,
            strings_bytes(sa@) == va,
            strings_bytes(sb@) == vb,
            i <= sa@.len(),
            i <= sb@.len(),
            path_order(va, vb) == path_order(va.skip(i as int), vb.skip(i as int)),
        decreases sa@.len() - i,
    {
        let xs = sa[i].as_str();
        let ys = sb[i].as_str();
        let c = compare_strings(xs, ys);
        proof {
            assert(va[i as int] == encode_utf8(sa@[i as int]@));
            assert(vb[i as int] == encode_utf8(sb@[i as int]@));
            let xa = va.skip(i as int);
            let xb = vb.skip(i as int);
            assert(xa[0] == va[i as int]);
            assert(xb[0] == vb[i as int]);
            assert(xa.drop_first() =~= va.skip(i + 1));
            assert(xb.drop_first() =~= vb.skip(i + 1));
        }
        let ghost sign = c.sign();
        proof {
            assert(xs@ == sa@[i as int]@);
            assert(ys@ == sb@[i as int]@);
            assert(sign == bytes_order(va[i as int], vb[i as int]));
            assert(va.skip(i as int).len() > 0 && vb.skip(i as int).len() > 0);
        }
        match c {
            Comparison::Equal => {},
            _ => {
                proof {
                    assert(path_order(va.skip(i as int), vb.skip(i as int)) == sign);
                }
                return c;
            },
        }
        i = i + 1;
    }
    if sa.len() == sb.len() {
        Comparison::Equal
    } else if i == sa.len() {
        Comparison::Less
    } else {
        Comparison::Greater
    }
}

impl PartialEq for FieldPath {
    fn eq(&self, other: &Self) -> (r: bool) {
        proof {
            lemma_path_order_antisym(self@, other@);
        }
        match compare_paths(self, other) {
            Comparison::Equal => true,
            _ => false,
        }
    }
}

impl Eq for FieldPath {
}

impl vstd::std_specs::cmp::PartialEqSpecImpl for FieldPath {
    open spec fn obeys_eq_spec() -> bool {
        true
    }

    open spec fn eq_spec(&self, other: &Self) -> bool {
        self@ == other@
    }
}

impl Clone for FieldPath {
    fn clone(&self) -> (r: Self)
        ensures
            r@ == self@,
    {
        self.duplicate()
    }
}

} // verus!
