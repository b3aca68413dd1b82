//! The integer side of lexical retrieval: request checks, canonical query
//! tokens, corpus analysis under budgets, validation of a materialized
//! corpus, and the final ranking. The floating-point BM25F scores that
//! feed the ranking are computed outside this library.
use std::collections::HashMap;
use vstd::prelude::*;

use vstd::utf8::decode_utf8;

use crate::digest::{crc32c_append, crc32c_append_value};
use crate::hybrid::same_bytes;
use crate::lexical::{
    strings_chars, tokenize_v1, tokens_v1, LexicalAbstention, LexicalAbstentionReason, LexicalError, LexicalField,
    LexicalIndexDefinition, LexicalLimits, LexicalMatch, LexicalOutcome, LexicalRequest,
};
use crate::lexical_proof::{canonical_token_list, canonical_tokens};
use crate::query::{extends, lemma_extends_trans, reached_since, MonotonicClock, Record};
use crate::value::{
    bytes_order, compare_bytes, lemma_bytes_order_antisym, lemma_bytes_order_trans, model_of, resolve_model, Comparison,
    FieldPath, Value, ValueModel,
};

verus! {

// ---------------------------------------------------------------------------
// Repeated keys.

/// Whether key `i` repeats an earlier key.
pub open spec fn repeats_earlier(keys: Seq<Seq<u8>>, i: int) -> bool {
    exists|j: int| 0 <= j < i && keys[j] == keys[i]
}

pub open spec fn slices_model(keys: Seq<&[u8]>) -> Seq<Seq<u8>> {
    Seq::new(keys.len(), |i: int| keys[i]@)
}

/// Key `j` is listed in the bucket of its checksum.
spec fn bucketed(m: Map<u32, Vec<usize>>, ks: Seq<Seq<u8>>, j: int) -> bool {
    &&& m.contains_key(crc32c_append_value(0, ks[j]))
    &&& m[crc32c_append_value(0, ks[j])]@.contains(j as usize)
}

/// For each key, whether it repeats an earlier one. Keys are bucketed by
/// their CRC-32C, so each key is compared only with earlier keys of its
/// bucket.
pub fn earlier_repeats(keys: &Vec<&[u8]>) -> (r: Vec<bool>)
    ensures
        r@.len() == keys@.len(),
        forall|i: int| 0 <= i < keys@.len() ==> r@[i] == repeats_earlier(slices_model(keys@), i),
{
    let ghost ks = slices_model(keys@);
    let mut buckets: HashMap<u32, Vec<usize>> = HashMap::new();
    let mut out: Vec<bool> = Vec::new();
    let mut i: usize = 0;
    while i < keys.len()
        invariant
            ks == slices_model(keys@),
            i <= keys@.len(),
            out@.len() == i,
            forall|k: int| 0 <= k < i ==> out@[k] == repeats_earlier(ks, k),
            forall|h: u32| #[trigger] buckets@.contains_key(h) ==> forall|t: int|
                0 <= t < buckets@[h]@.len() ==> (#[trigger] buckets@[h]@[t]) < i && crc32c_append_value(
                    0,
                    ks[buckets@[h]@[t] as int],
                ) == h,
            forall|j: int| 0 <= j < i ==> #[trigger] bucketed(buckets@, ks, j),
        decreases keys@.len() - i,
    {
        let key = keys[i];
        let h = crc32c_append(0, key);
        let ghost before = buckets@;
        let bucket: Vec<usize> = match buckets.remove(&h) {
            Some(b) => b,
            None => Vec::new(),
        };
        proof {
            assert(buckets@ == before.remove(h));
            assert(before.contains_key(h) ==> bucket == before[h]);
            assert(!before.contains_key(h) ==> bucket@.len() == 0);
        }
        proof {
            assert(ks[i as int] == key@);
        }
        let mut seen = false;
        let mut t: usize = 0;
        while t < bucket.len()
            invariant
                t <= bucket@.len(),
                i < keys@.len(),
                ks == slices_model(keys@),
                forall|u: int| 0 <= u < bucket@.len() ==> (#[trigger] bucket@[u]) < i,
                seen == exists|u: int| 0 <= u < t && ks[#[trigger] bucket@[u] as int] == ks[i as int],
            decreases bucket@.len() - t,
        {
            let j = bucket[t];
            if same_bytes(keys[j], keys[i]) {
                seen = true;
            }
            proof {
                assert(ks[j as int] == keys@[j as int]@);
            }
            t = t + 1;
        }
        proof {
            assert(seen == repeats_earlier(ks, i as int)) by {
                if repeats_earlier(ks, i as int) {
                    let j = choose|j: int| 0 <= j < i && ks[j] == ks[i as int];
                    assert(bucketed(before, ks, j));
                    assert(crc32c_append_value(0, ks[j]) == h);
                    assert(before.contains_key(h));
                    assert(bucket@.contains(j as usize));
                    let u = choose|u: int| 0 <= u < bucket@.len() && bucket@[u] == j as usize;
                    assert(ks[bucket@[u] as int] == ks[i as int]);
                }
            }
        }
        out.push(seen);
        let mut grown = bucket;
        let ghost kept = grown@;
        grown.push(i);
        let ghost added = grown@;
        buckets.insert(h, grown);
        proof {
            assert(buckets@ == before.remove(h).insert(h, grown));
            assert(added == kept.push(i));
            assert forall|j: int| 0 <= j < i + 1 implies #[trigger] bucketed(buckets@, ks, j) by {
                let hj = crc32c_append_value(0, ks[j]);
                if j < i {
                    assert(bucketed(before, ks, j));
                }
                if hj == h {
                    if j < i {
                        assert(before[hj]@.contains(j as usize));
                        let u = choose|u: int| 0 <= u < kept.len() && kept[u] == j as usize;
                        assert(added[u] == j as usize);
                    } else {
                        assert(added[kept.len() as int] == i);
                    }
                } else {
                    assert(before.contains_key(hj));
                }
            }
        }
        i = i + 1;
    }
    out
}

// ---------------------------------------------------------------------------
// Request checks and query tokens.

/// The failure of a request against its definition and policy, if any,
/// checked in order: index name, zero limit, limit bound.
pub open spec fn execution_fault(
    definition: LexicalIndexDefinition,
    request: LexicalRequest,
    limits: LexicalLimits,
) -> Option<LexicalError> {
    if request.index@ != definition.name@ {
        Some(LexicalError::IndexMismatch)
    } else if request.limit == 0 {
        Some(LexicalError::ZeroLimit)
    } else if request.limit > limits.max_returned {
        Some(LexicalError::ResultLimitExceeded { requested: request.limit, maximum: limits.max_returned })
    } else {
        None
    }
}

/// Checks a request against its definition and policy.
pub fn validate_execution(
    definition: &LexicalIndexDefinition,
    request: &LexicalRequest,
    limits: &LexicalLimits,
) -> (r: Result<(), LexicalError>)
    ensures
        match execution_fault(*definition, *request, *limits) {
            Some(e) => r == Err::<(), LexicalError>(e),
            None => r is Ok,
        },
{
    if !same_bytes(request.index.as_str().as_bytes(), definition.name.as_str().as_bytes()) {
        return Err(LexicalError::IndexMismatch);
    }
    if request.limit == 0 {
        return Err(LexicalError::ZeroLimit);
    }
    if request.limit > limits.max_returned {
        return Err(LexicalError::ResultLimitExceeded { requested: request.limit, maximum: limits.max_returned });
    }
    Ok(())
}

/// The distinct tokens of a query in increasing byte order; a query without
/// tokens is refused.
pub fn query_tokens_v1(query: &str) -> (r: Result<Vec<String>, LexicalError>)
    ensures
        tokens_v1(query@).len() == 0 ==> r == Err::<Vec<String>, LexicalError>(LexicalError::EmptyQuery),
        tokens_v1(query@).len() != 0 ==> (r matches Ok(ts) && canonical_token_list(strings_chars(ts@), tokens_v1(query@))),
{
    let tokens = tokenize_v1(query);
    if tokens.len() == 0 {
        return Err(LexicalError::EmptyQuery);
    }
    Ok(canonical_tokens(tokens))
}

// ---------------------------------------------------------------------------
// Corpus analysis.

/// The tokens of the field at `path` of a record value: the tokens of a
/// string found there, or none.
pub open spec fn field_tokens(v: ValueModel, path: Seq<Seq<u8>>) -> Seq<Seq<char>> {
    match resolve_model(v, path) {
        Some(ValueModel::Text(b)) => tokens_v1(decode_utf8(b)),
        _ => Seq::empty(),
    }
}

/// The token counts of the fields `0..f` of a record value.
pub open spec fn tokens_through(v: ValueModel, paths: Seq<Seq<Seq<u8>>>, f: int) -> int
    decreases f,
{
    if f <= 0 {
        0
    } else {
        tokens_through(v, paths, f - 1) + field_tokens(v, paths[f - 1]).len()
    }
}

/// A record as key bytes and value model.
pub open spec fn record_model(r: Record) -> (Seq<u8>, ValueModel) {
    (r.key@, model_of(r.value))
}

pub open spec fn records_model(rs: Seq<Record>) -> Seq<(Seq<u8>, ValueModel)> {
    Seq::new(rs.len(), |i: int| record_model(rs[i]))
}

pub open spec fn keys_of(recs: Seq<(Seq<u8>, ValueModel)>) -> Seq<Seq<u8>> {
    Seq::new(recs.len(), |i: int| recs[i].0)
}

/// The first failure analyzing records `i..` once `count` tokens were
/// counted: the document budget, an empty key, a repeated key, then the
/// token budget, which is checked after each configured field.
pub open spec fn analysis_fault(
    recs: Seq<(Seq<u8>, ValueModel)>,
    paths: Seq<Seq<Seq<u8>>>,
    limits: LexicalLimits,
    i: int,
    count: int,
) -> Option<LexicalError>
    decreases recs.len() - i,
{
    if i < 0 || i >= recs.len() {
        None
    } else if i >= limits.max_documents {
        Some(LexicalError::DocumentBudgetExceeded { maximum: limits.max_documents })
    } else if recs[i].0.len() == 0 {
        Some(LexicalError::EmptyDocumentKey)
    } else if repeats_earlier(keys_of(recs), i) {
        Some(LexicalError::DuplicateDocumentKey)
    } else if paths.len() > 0 && count + tokens_through(recs[i].1, paths, paths.len() as int) > limits.max_tokens {
        Some(LexicalError::TokenBudgetExceeded { maximum: limits.max_tokens })
    } else {
        analysis_fault(recs, paths, limits, i + 1, count + tokens_through(recs[i].1, paths, paths.len() as int))
    }
}

/// The total token count of field `f` over records `0..n`.
pub open spec fn field_total(recs: Seq<(Seq<u8>, ValueModel)>, path: Seq<Seq<u8>>, n: int) -> int
    decreases n,
{
    if n <= 0 {
        0
    } else {
        field_total(recs, path, n - 1) + field_tokens(recs[n - 1].1, path).len()
    }
}

/// The total token count over records `0..n`.
pub open spec fn corpus_total(recs: Seq<(Seq<u8>, ValueModel)>, paths: Seq<Seq<Seq<u8>>>, n: int) -> int
    decreases n,
{
    if n <= 0 {
        0
    } else {
        corpus_total(recs, paths, n - 1) + tokens_through(recs[n - 1].1, paths, paths.len() as int)
    }
}

/// A record reduced to its key and the tokens of each configured field.
#[derive(Clone, Debug, PartialEq, Eq)]
pub struct AnalyzedDocument {
    /// Binary document key.
    pub key: Vec<u8>,
    /// The tokens of each configured field, in definition order.
    pub fields: Vec<Vec<String>>,
}

/// A corpus analyzed for one query.
#[derive(Clone, Debug, PartialEq, Eq)]
pub struct AnalyzedCorpus {
    /// Documents in record order.
    pub documents: Vec<AnalyzedDocument>,
    /// Token totals of each configured field across the corpus.
    pub total_lengths: Vec<u64>,
}

pub open spec fn definition_paths(fs: Seq<LexicalField>) -> Seq<Seq<Seq<u8>>> {
    Seq::new(fs.len(), |f: int| fs[f].path@)
}

/// `doc` holds the key and the field tokens of record `rec`.
pub open spec fn analyzed_as(doc: AnalyzedDocument, rec: (Seq<u8>, ValueModel), paths: Seq<Seq<Seq<u8>>>) -> bool {
    &&& doc.key@ == rec.0
    &&& doc.fields@.len() == paths.len()
    &&& forall|f: int| 0 <= f < paths.len() ==> strings_chars((#[trigger] doc.fields@[f])@) == field_tokens(rec.1, paths[f])
}

/// The tokens of the field at `path` of `value`.
fn tokens_at(value: &Value, path: &FieldPath) -> (r: Vec<String>)
    ensures
        strings_chars(r@) == field_tokens(model_of(*value), path@),
{
    match path.resolve(value) {
        Some(Value::String(text)) => {
            let r = tokenize_v1(text.as_str());
            proof {
                vstd::utf8::encode_utf8_decode_utf8(text@);
            }
            r
        },
        Some(other) => {
            proof {
                assert(!(model_of(*other) is Text)) by {
                    match *other {
                        Value::String(_) => {},
                        _ => {},
                    }
                }
            }
            Vec::new()
        },
        None => Vec::new(),
    }
}


proof fn lemma_tokens_through_monotone(v: ValueModel, paths: Seq<Seq<Seq<u8>>>, a: int, b: int)
    requires
        a <= b,
    ensures
        tokens_through(v, paths, a) <= tokens_through(v, paths, b),
    decreases b - a,
{
    if a < b {
        lemma_tokens_through_monotone(v, paths, a, b - 1);
    }
}

proof fn lemma_field_within_corpus(recs: Seq<(Seq<u8>, ValueModel)>, paths: Seq<Seq<Seq<u8>>>, f: int, n: int)
    requires
        0 <= f < paths.len(),
    ensures
        field_total(recs, paths[f], n) <= corpus_total(recs, paths, n),
    decreases n,
{
    if n > 0 {
        lemma_field_within_corpus(recs, paths, f, n - 1);
        lemma_tokens_through_monotone(recs[n - 1].1, paths, f + 1, paths.len() as int);
        lemma_tokens_through_monotone(recs[n - 1].1, paths, 0, f);
    }
}

proof fn lemma_token_fault(
    recs: Seq<(Seq<u8>, ValueModel)>,
    paths: Seq<Seq<Seq<u8>>>,
    limits: LexicalLimits,
    i: int,
    count: int,
)
    requires
        0 <= i < recs.len(),
        !(i >= limits.max_documents),
        recs[i].0.len() != 0,
        !repeats_earlier(keys_of(recs), i),
        paths.len() > 0,
        count + tokens_through(recs[i].1, paths, paths.len() as int) > limits.max_tokens,
    ensures
        analysis_fault(recs, paths, limits, i, count) == Some(LexicalError::TokenBudgetExceeded { maximum: limits.max_tokens }),
{
}

/// Reduces records to their keys and field tokens for one query, under the
/// document and token budgets. The token budget starts from the number of
/// query tokens. The clock is read before each record; once it reaches the
/// deadline the analysis stops with `TimedOut`.
pub fn analyze_records<C: MonotonicClock>(
    records: &[Record],
    definition: &LexicalIndexDefinition,
    query_tokens: &Vec<String>,
    limits: &LexicalLimits,
    clock: &mut C,
    deadline: u128,
) -> (r: Result<AnalyzedCorpus, LexicalError>)
    ensures
        ({
            let recs = records_model(records@);
            let paths = definition_paths(definition.fields@);
            match r {
                Ok(c) => {
                    &&& analysis_fault(recs, paths, *limits, 0, query_tokens@.len() as int) is None
                    &&& c.documents@.len() == recs.len()
                    &&& forall|i: int| 0 <= i < recs.len() ==> analyzed_as(#[trigger] c.documents@[i], recs[i], paths)
                    &&& c.total_lengths@.len() == paths.len()
                    &&& forall|f: int| 0 <= f < paths.len() ==> #[trigger] c.total_lengths@[f] == field_total(recs, paths[f], recs.len() as int)
                },
                Err(e) => e == LexicalError::TimedOut || analysis_fault(recs, paths, *limits, 0, query_tokens@.len() as int) == Some(e),
            }
        }),
        extends(old(clock).readings(), final(clock).readings()),
        r matches Err(LexicalError::TimedOut) ==> reached_since(old(clock).readings(), final(clock).readings(), deadline),
{
    let ghost clock_start = clock.readings();
    proof {
        assert(clock_start.subrange(0, clock_start.len() as int) =~= clock_start);
    }
    let ghost recs = records_model(records@);
    let ghost paths = definition_paths(definition.fields@);
    let ghost qtc = query_tokens@.len() as int;
    let mut keys: Vec<&[u8]> = Vec::new();
    let mut k: usize = 0;
    while k < records.len()
        invariant
            k <= records@.len(),
            recs == records_model(records@),
            keys@.len() == k,
            forall|j: int| 0 <= j < k ==> (#[trigger] keys@[j])@ == recs[j].0,
        decreases records@.len() - k,
    {
        keys.push(records[k].key.as_slice());
        k = k + 1;
    }
    let repeats = earlier_repeats(&keys);
    proof {
        assert(slices_model(keys@) == keys_of(recs));
    }
    let mut totals: Vec<u64> = Vec::new();
    let mut f0: usize = 0;
    while f0 < definition.fields.len()
        invariant
            f0 <= definition.fields@.len(),
            totals@.len() == f0,
            forall|g: int| 0 <= g < f0 ==> #[trigger] totals@[g] == 0,
        decreases definition.fields@.len() - f0,
    {
        totals.push(0);
        f0 = f0 + 1;
    }
    let mut token_count: u64 = query_tokens.len() as u64;
    let mut documents: Vec<AnalyzedDocument> = Vec::new();
    let mut i: usize = 0;
    while i < records.len()
        invariant
            i <= records@.len(),
            recs == records_model(records@),
            paths == definition_paths(definition.fields@),
            qtc == query_tokens@.len() as int,
            repeats@.len() == recs.len(),
            forall|j: int| 0 <= j < recs.len() ==> repeats@[j] == repeats_earlier(keys_of(recs), j),
            token_count as int == qtc + corpus_total(recs, paths, i as int),
            analysis_fault(recs, paths, *limits, 0, qtc) == analysis_fault(recs, paths, *limits, i as int, token_count as int),
            documents@.len() == i,
            forall|j: int| 0 <= j < i ==> analyzed_as(#[trigger] documents@[j], recs[j], paths),
            totals@.len() == paths.len(),
            forall|g: int| 0 <= g < paths.len() ==> #[trigger] totals@[g] == field_total(recs, paths[g], i as int),
            clock_start == old(clock).readings(),
            extends(clock_start, clock.readings()),
        decreases records@.len() - i,
    {
        let ghost before = clock.readings();
        let reading = clock.now();
        proof {
            assert(clock.readings().subrange(0, before.len() as int) =~= before);
            lemma_extends_trans(clock_start, before, clock.readings());
        }
        if reading >= deadline {
            proof {
                assert(clock.readings()[before.len() as int] == reading);
            }
            return Err(LexicalError::TimedOut);
        }
        let record = &records[i];
        let ghost v = recs[i as int].1;
        let ghost start = token_count as int;
        if (documents.len() as u64) >= limits.max_documents {
            return Err(LexicalError::DocumentBudgetExceeded { maximum: limits.max_documents });
        }
        if record.key.len() == 0 {
            return Err(LexicalError::EmptyDocumentKey);
        }
        if repeats[i] {
            return Err(LexicalError::DuplicateDocumentKey);
        }
        let mut fields: Vec<Vec<String>> = Vec::new();
        let mut f: usize = 0;
        while f < definition.fields.len()
            invariant
                i < records@.len(),
                f <= paths.len(),
                recs == records_model(records@),
                paths == definition_paths(definition.fields@),
                v == recs[i as int].1,
                v == model_of(records@[i as int].value),
                *record == records@[i as int],
                start == qtc + corpus_total(recs, paths, i as int),
                token_count as int == start + tokens_through(v, paths, f as int),
                fields@.len() == f,
                forall|g: int| 0 <= g < f ==> strings_chars((#[trigger] fields@[g])@) == field_tokens(v, paths[g]),
                totals@.len() == paths.len(),
                forall|g: int| 0 <= g < f ==> #[trigger] totals@[g] == field_total(recs, paths[g], i + 1),
                forall|g: int| f <= g < paths.len() ==> #[trigger] totals@[g] == field_total(recs, paths[g], i as int),
                analysis_fault(recs, paths, *limits, 0, qtc) == analysis_fault(recs, paths, *limits, i as int, start),
                !(i >= limits.max_documents),
                recs[i as int].0.len() != 0,
                !repeats_earlier(keys_of(recs), i as int),
                f > 0 ==> token_count <= limits.max_tokens,
                qtc == query_tokens@.len() as int,
                clock_start == old(clock).readings(),
                extends(clock_start, clock.readings()),
            decreases paths.len() - f,
        {
            let tokens = tokens_at(&record.value, &definition.fields[f].path);
            let length = tokens.len() as u64;
            proof {
                assert(paths[f as int] == definition.fields@[f as int].path@);
                assert(tokens_through(v, paths, f + 1) == tokens_through(v, paths, f as int) + length);
                lemma_tokens_through_monotone(v, paths, f + 1, paths.len() as int);
            }
            let next = match token_count.checked_add(length) {
                Some(n) => n,
                None => {
                    proof {
                        lemma_token_fault(recs, paths, *limits, i as int, start);
                    }
                    return Err(LexicalError::TokenBudgetExceeded { maximum: limits.max_tokens });
                },
            };
            if next > limits.max_tokens {
                proof {
                    lemma_token_fault(recs, paths, *limits, i as int, start);
                }
                return Err(LexicalError::TokenBudgetExceeded { maximum: limits.max_tokens });
            }
            token_count = next;
            proof {
                lemma_field_within_corpus(recs, paths, f as int, i as int);
                lemma_tokens_through_monotone(v, paths, 0, f as int);
            }
            let t = totals[f] + length;
            totals.set(f, t);
            fields.push(tokens);
            f = f + 1;
        }
        proof {
            assert(recs[i as int] == record_model(records@[i as int]));
            if paths.len() > 0 {
                assert(start + tokens_through(v, paths, paths.len() as int) <= limits.max_tokens);
            } else {
                assert(tokens_through(v, paths, 0) == 0);
            }
            assert(corpus_total(recs, paths, i + 1) == corpus_total(recs, paths, i as int) + tokens_through(v, paths, paths.len() as int));
        }
        let doc = AnalyzedDocument { key: crate::value::copy_bytes(record.key.as_slice()), fields };
        documents.push(doc);
        i = i + 1;
    }
    Ok(AnalyzedCorpus { documents, total_lengths: totals })
}


// ---------------------------------------------------------------------------
// Final ranking.

/// `a` ranks strictly before `b`: a higher score, then the smaller binary
/// key.
pub open spec fn ranks_before(a: LexicalMatch, b: LexicalMatch) -> bool {
    a.score_nanos > b.score_nanos || (a.score_nanos == b.score_nanos && bytes_order(a.key@, b.key@) < 0)
}

/// No match ranks strictly before an earlier one.
pub open spec fn in_rank_order(s: Seq<LexicalMatch>) -> bool {
    forall|i: int, j: int| 0 <= i < j < s.len() ==> !ranks_before(#[trigger] s[j], #[trigger] s[i])
}

/// `out` is the first `limit` matches of an ordering of `scored` by score,
/// then key.
pub open spec fn ranked_prefix(scored: Seq<LexicalMatch>, out: Seq<LexicalMatch>, limit: int) -> bool {
    exists|sorted: Seq<LexicalMatch>|
        {
            &&& in_rank_order(sorted)
            &&& #[trigger] sorted.to_multiset() == scored.to_multiset()
            &&& out == sorted.take(if limit < sorted.len() { limit } else { sorted.len() as int })
        }
}

proof fn lemma_ranks_before_trans(a: LexicalMatch, b: LexicalMatch, c: LexicalMatch)
    requires
        ranks_before(a, b),
        ranks_before(b, c),
    ensures
        ranks_before(a, c),
{
    if a.score_nanos == b.score_nanos && b.score_nanos == c.score_nanos {
        lemma_bytes_order_trans(a.key@, b.key@, c.key@);
    }
}

/// No two matches share a key.
pub open spec fn match_keys_distinct(s: Seq<LexicalMatch>) -> bool {
    forall|i: int, j: int| 0 <= i < j < s.len() ==> (#[trigger] s[i]).key@ != (#[trigger] s[j]).key@
}

/// Ordering by score then binary key leaves no choice: two orderings of the
/// same matches with distinct keys are the same sequence.
pub proof fn lemma_rank_order_unique(a: Seq<LexicalMatch>, b: Seq<LexicalMatch>)
    requires
        in_rank_order(a),
        in_rank_order(b),
        a.to_multiset() == b.to_multiset(),
        match_keys_distinct(a),
    ensures
        a == b,
    decreases a.len(),
{
    vstd::seq_lib::to_multiset_len(a);
    vstd::seq_lib::to_multiset_len(b);
    if a.len() == 0 {
        assert(a =~= b);
    } else {
        vstd::seq_lib::to_multiset_contains(a, a[0]);
        vstd::seq_lib::to_multiset_contains(b, a[0]);
        vstd::seq_lib::to_multiset_contains(a, b[0]);
        vstd::seq_lib::to_multiset_contains(b, b[0]);
        assert(a.contains(a[0]));
        assert(b.contains(b[0]));
        let j = choose|j: int| 0 <= j < b.len() && b[j] == a[0];
        let k = choose|k: int| 0 <= k < a.len() && a[k] == b[0];
        if a[0] != b[0] {
            assert(j > 0 && k > 0);
            assert(!ranks_before(b[j], b[0]));
            assert(!ranks_before(a[k], a[0]));
            assert(a[0].key@ != a[k].key@);
            lemma_bytes_order_antisym(a[0].key@, b[0].key@);
            assert(false);
        }
        vstd::seq_lib::to_multiset_remove(a, 0);
        vstd::seq_lib::to_multiset_remove(b, 0);
        assert(a.remove(0) =~= a.drop_first());
        assert(b.remove(0) =~= b.drop_first());
        let ta = a.drop_first();
        let tb = b.drop_first();
        assert forall|x: int, y: int| 0 <= x < y < ta.len() implies !ranks_before(#[trigger] ta[y], #[trigger] ta[x]) by {
            assert(ta[x] == a[x + 1] && ta[y] == a[y + 1]);
        }
        assert forall|x: int, y: int| 0 <= x < y < tb.len() implies !ranks_before(#[trigger] tb[y], #[trigger] tb[x]) by {
            assert(tb[x] == b[x + 1] && tb[y] == b[y + 1]);
        }
        assert forall|x: int, y: int| 0 <= x < y < ta.len() implies (#[trigger] ta[x]).key@ != (#[trigger] ta[y]).key@ by {
            assert(ta[x] == a[x + 1] && ta[y] == a[y + 1]);
        }
        lemma_rank_order_unique(ta, tb);
        assert(a =~= seq![a[0]] + ta);
        assert(b =~= seq![b[0]] + tb);
    }
}

/// Inserts `m` after every match that does not rank after it.
fn insert_ranked(sorted: &mut Vec<LexicalMatch>, m: LexicalMatch)
    requires
        in_rank_order(old(sorted)@),
    ensures
        in_rank_order(final(sorted)@),
        final(sorted)@.to_multiset() == old(sorted)@.to_multiset().insert(m),
{
    let ghost before = sorted@;
    let mut p: usize = 0;
    while p < sorted.len()
        invariant_except_break
            p <= sorted@.len(),
            before == sorted@,
            forall|i: int| 0 <= i < p ==> !ranks_before(m, #[trigger] before[i]),
        ensures
            p <= sorted@.len(),
            before == sorted@,
            forall|i: int| 0 <= i < p ==> !ranks_before(m, #[trigger] before[i]),
            p < sorted@.len() ==> ranks_before(m, before[p as int]),
        decreases sorted@.len() - p,
    {
        let s = &sorted[p];
        let c = compare_bytes(m.key.as_slice(), s.key.as_slice());
        let key_first = match c {
            Comparison::Less => true,
            _ => false,
        };
        let goes_first = m.score_nanos > s.score_nanos || (m.score_nanos == s.score_nanos && key_first);
        if goes_first {
            break;
        }
        p = p + 1;
    }
    proof {
        if p < before.len() {
            assert forall|i: int| p <= i < before.len() implies !ranks_before(#[trigger] before[i], m) by {
                if ranks_before(before[i], m) {
                    lemma_ranks_before_trans(before[i], m, before[p as int]);
                    if i > p {
                        assert(!ranks_before(before[i], before[p as int]));
                    } else {
                        lemma_bytes_order_antisym(before[i].key@, before[i].key@);
                    }
                }
            }
        }
    }
    sorted.insert(p, m);
    proof {
        let after = sorted@;
        assert(after =~= before.insert(p as int, m));
        vstd::seq_lib::to_multiset_insert(before, p as int, m);
        assert forall|i: int, j: int| 0 <= i < j < after.len() implies !ranks_before(#[trigger] after[j], #[trigger] after[i]) by {
            if j < p {
            } else if i < p && j == p {
            } else if i < p && j > p {
                assert(after[j] == before[j - 1]);
            } else if i == p {
                assert(after[j] == before[j - 1]);
            } else {
                assert(after[i] == before[i - 1]);
                assert(after[j] == before[j - 1]);
            }
        }
    }
}

/// Orders scored matches by score, then binary key, keeps the first
/// `limit`, and reports them, or a `NoCandidates` abstention when none is
/// kept. `matched_documents` counts every scored match.
pub fn finish_ranking(
    matches: Vec<LexicalMatch>,
    document_count: u64,
    query_tokens: Vec<String>,
    limit: usize,
) -> (r: LexicalOutcome)
    ensures
        match r {
            LexicalOutcome::Matches { matches: out, scanned_documents, matched_documents, query_tokens: qt } => {
                &&& matches@.len() > 0 && limit > 0
                &&& scanned_documents == document_count
                &&& matched_documents == matches@.len()
                &&& qt == query_tokens
                &&& ranked_prefix(matches@, out@, limit as int)
            },
            LexicalOutcome::Abstained(a) => {
                &&& matches@.len() == 0 || limit == 0
                &&& a.reason == LexicalAbstentionReason::NoCandidates
                &&& a.scanned_documents == document_count
                &&& a.query_tokens == query_tokens
            },
        },
{
    let ghost scored = matches@;
    let matched_documents = matches.len() as u64;
    let mut input = matches;
    let mut sorted: Vec<LexicalMatch> = Vec::new();
    proof {
        assert(input@.to_multiset().add(sorted@.to_multiset()) =~= scored.to_multiset()) by {
            broadcast use vstd::multiset::group_multiset_axioms;
            vstd::seq_lib::to_multiset_len(sorted@);
            vstd::multiset::lemma_multiset_empty_len(sorted@.to_multiset());
        }
    }
    while input.len() > 0
        invariant
            in_rank_order(sorted@),
            input@.to_multiset().add(sorted@.to_multiset()) == scored.to_multiset(),
        decreases input@.len(),
    {
        let ghost rest = input@;
        let m = input.pop().unwrap();
        let ghost prior = sorted@;
        insert_ranked(&mut sorted, m);
        proof {
            broadcast use vstd::multiset::group_multiset_axioms;
            assert(rest =~= input@.push(m));
            vstd::seq_lib::to_multiset_build(input@, m);
            assert(input@.to_multiset().add(sorted@.to_multiset()) =~= scored.to_multiset());
        }
    }
    proof {
        broadcast use vstd::multiset::group_multiset_axioms;
        assert(input@.len() == 0);
        vstd::seq_lib::to_multiset_len(input@);
        vstd::multiset::lemma_multiset_empty_len(input@.to_multiset());
        assert(sorted@.to_multiset() =~= scored.to_multiset());
        vstd::seq_lib::to_multiset_len(sorted@);
        vstd::seq_lib::to_multiset_len(scored);
    }
    let ghost full = sorted@;
    sorted.truncate(limit);
    proof {
        assert(sorted@ == full.take(if limit < full.len() { limit as int } else { full.len() as int }));
        assert(ranked_prefix(scored, sorted@, limit as int));
    }
    if sorted.len() == 0 {
        LexicalOutcome::Abstained(LexicalAbstention {
            reason: LexicalAbstentionReason::NoCandidates,
            scanned_documents: document_count,
            query_tokens,
        })
    } else {
        LexicalOutcome::Matches { matches: sorted, scanned_documents: document_count, matched_documents, query_tokens }
    }
}


// ---------------------------------------------------------------------------
// Materialized corpus.

/// Rebuildable lexical statistics for one document that contains at least
/// one normalized query token.
#[derive(Clone, Debug, PartialEq, Eq)]
pub struct LexicalMaterializedDocument {
    /// Binary document key.
    pub key: Vec<u8>,
    /// Token count for every configured field in canonical field order.
    pub field_lengths: Vec<u64>,
    /// Per-field frequencies of each canonical query token, one entry per
    /// token; a projection that lists a token twice is malformed.
    pub term_frequencies: Vec<(String, Vec<u64>)>,
}

/// Complete bounded view read from a rebuildable lexical projection.
#[derive(Clone, Debug, PartialEq, Eq)]
pub struct LexicalMaterializedCorpus {
    /// Number of authoritative documents represented by the projection.
    pub document_count: u64,
    /// Total normalized token count across all configured fields.
    pub token_count: u64,
    /// Per-field token totals across the complete corpus.
    pub total_field_lengths: Vec<u64>,
    /// Candidate documents containing at least one query token.
    pub documents: Vec<LexicalMaterializedDocument>,
}

/// Entry `j` is the first entry for token `t`.
pub open spec fn first_entry(entries: Seq<(String, Vec<u64>)>, t: Seq<char>, j: int) -> bool {
    &&& 0 <= j < entries.len()
    &&& entries[j].0@ == t
    &&& forall|k: int| 0 <= k < j ==> (#[trigger] entries[k]).0@ != t
}

/// Token `t` has an entry, and its first entry holds one frequency per
/// field.
pub open spec fn token_entry_ok(entries: Seq<(String, Vec<u64>)>, t: Seq<char>, fields: int) -> bool {
    exists|j: int| #[trigger] first_entry(entries, t, j) && entries[j].1@.len() == fields
}

/// No token is listed twice.
pub open spec fn entry_tokens_distinct(entries: Seq<(String, Vec<u64>)>) -> bool {
    forall|i: int, j: int| 0 <= i < j < entries.len() ==> (#[trigger] entries[i]).0@ != (#[trigger] entries[j]).0@
}

/// The document does not have the shape of the definition and query.
pub open spec fn document_malformed(d: LexicalMaterializedDocument, fields: int, query: Seq<Seq<char>>) -> bool {
    ||| d.field_lengths@.len() != fields
    ||| d.term_frequencies@.len() != query.len()
    ||| exists|q: int| 0 <= q < query.len() && !token_entry_ok(d.term_frequencies@, #[trigger] query[q], fields)
    ||| !entry_tokens_distinct(d.term_frequencies@)
}

/// Whether no token is listed twice.
fn tokens_distinct(entries: &Vec<(String, Vec<u64>)>) -> (r: bool)
    ensures
        r == entry_tokens_distinct(entries@),
{
    let mut j: usize = 0;
    while j < entries.len()
        invariant
            j <= entries@.len(),
            forall|a: int, b: int| 0 <= a < b < j ==> (#[trigger] entries@[a]).0@ != (#[trigger] entries@[b]).0@,
        decreases entries@.len() - j,
    {
        let mut i: usize = 0;
        while i < j
            invariant
                i <= j < entries@.len(),
                forall|a: int| 0 <= a < i ==> (#[trigger] entries@[a]).0@ != entries@[j as int].0@,
            decreases j - i,
        {
            if entries[i].0 == entries[j].0 {
                return false;
            }
            i = i + 1;
        }
        j = j + 1;
    }
    true
}

pub open spec fn materialized_keys(ds: Seq<LexicalMaterializedDocument>) -> Seq<Seq<u8>> {
    Seq::new(ds.len(), |i: int| ds[i].key@)
}

/// The first document failure from document `i` on: an empty key, a
/// repeated key, then a malformed shape.
pub open spec fn document_fault(
    ds: Seq<LexicalMaterializedDocument>,
    fields: int,
    query: Seq<Seq<char>>,
    i: int,
) -> Option<LexicalError>
    decreases ds.len() - i,
{
    if i < 0 || i >= ds.len() {
        None
    } else if ds[i].key@.len() == 0 {
        Some(LexicalError::EmptyDocumentKey)
    } else if repeats_earlier(materialized_keys(ds), i) {
        Some(LexicalError::DuplicateDocumentKey)
    } else if document_malformed(ds[i], fields, query) {
        Some(LexicalError::MalformedProjection)
    } else {
        document_fault(ds, fields, query, i + 1)
    }
}

/// The failure of a materialized corpus, checked in order: the document
/// budget, the token budget including the query tokens, the candidate
/// budget, the field totals, then each document.
pub open spec fn materialized_fault(
    c: LexicalMaterializedCorpus,
    fields: int,
    query: Seq<Seq<char>>,
    limits: LexicalLimits,
) -> Option<LexicalError> {
    if c.document_count > limits.max_documents {
        Some(LexicalError::DocumentBudgetExceeded { maximum: limits.max_documents })
    } else if c.token_count + query.len() > limits.max_tokens {
        Some(LexicalError::TokenBudgetExceeded { maximum: limits.max_tokens })
    } else if c.documents@.len() > limits.max_candidates {
        Some(LexicalError::CandidateBudgetExceeded { maximum: limits.max_candidates })
    } else if c.total_field_lengths@.len() != fields {
        Some(LexicalError::MalformedProjection)
    } else {
        document_fault(c.documents@, fields, query, 0)
    }
}

/// Whether the entries hold a first entry for `token` with `fields`
/// frequencies.
fn entry_ok(entries: &Vec<(String, Vec<u64>)>, token: &String, fields: usize) -> (r: bool)
    ensures
        r == token_entry_ok(entries@, token@, fields as int),
{
    let mut j: usize = 0;
    while j < entries.len()
        invariant
            j <= entries@.len(),
            forall|k: int| 0 <= k < j ==> (#[trigger] entries@[k]).0@ != token@,
        decreases entries@.len() - j,
    {
        if entries[j].0 == *token {
            proof {
                assert(first_entry(entries@, token@, j as int));
                if entries@[j as int].1@.len() != fields {
                    assert forall|x: int| #[trigger] first_entry(entries@, token@, x) implies entries@[x].1@.len() != fields by {
                        if x < j {
                            assert(entries@[x].0@ != token@);
                        } else if x > j {
                            assert(entries@[j as int].0@ != token@);
                        }
                    }
                }
            }
            return entries[j].1.len() == fields;
        }
        j = j + 1;
    }
    proof {
        assert forall|x: int| #[trigger] first_entry(entries@, token@, x) implies false by {
            assert(entries@[x].0@ != token@);
        }
    }
    false
}

/// Whether a document has the shape of the definition and query.
fn document_shape_malformed(d: &LexicalMaterializedDocument, fields: usize, query_tokens: &Vec<String>) -> (r: bool)
    ensures
        r == document_malformed(*d, fields as int, strings_chars(query_tokens@)),
{
    let ghost query = strings_chars(query_tokens@);
    if d.field_lengths.len() != fields || d.term_frequencies.len() != query_tokens.len() {
        return true;
    }
    let mut q: usize = 0;
    while q < query_tokens.len()
        invariant
            q <= query_tokens@.len(),
            query == strings_chars(query_tokens@),
            forall|x: int| 0 <= x < q ==> token_entry_ok(d.term_frequencies@, #[trigger] query[x], fields as int),
        decreases query_tokens@.len() - q,
    {
        if !entry_ok(&d.term_frequencies, &query_tokens[q], fields) {
            proof {
                assert(!token_entry_ok(d.term_frequencies@, query[q as int], fields as int));
            }
            return true;
        }
        q = q + 1;
    }
    !tokens_distinct(&d.term_frequencies)
}

/// Checks a materialized corpus against the definition, the query tokens
/// and the budgets.
pub fn validate_materialized_corpus(
    corpus: &LexicalMaterializedCorpus,
    definition: &LexicalIndexDefinition,
    query_tokens: &Vec<String>,
    limits: &LexicalLimits,
) -> (r: Result<(), LexicalError>)
    ensures
        match materialized_fault(*corpus, definition.fields@.len() as int, strings_chars(query_tokens@), *limits) {
            Some(e) => r == Err::<(), LexicalError>(e),
            None => r is Ok,
        },
{
    let ghost query = strings_chars(query_tokens@);
    let ghost ds = corpus.documents@;
    let fields = definition.fields.len();
    if corpus.document_count > limits.max_documents {
        return Err(LexicalError::DocumentBudgetExceeded { maximum: limits.max_documents });
    }
    let total = match corpus.token_count.checked_add(query_tokens.len() as u64) {
        Some(t) => t,
        None => {
            return Err(LexicalError::TokenBudgetExceeded { maximum: limits.max_tokens });
        },
    };
    if total > limits.max_tokens {
        return Err(LexicalError::TokenBudgetExceeded { maximum: limits.max_tokens });
    }
    if corpus.documents.len() as u64 > limits.max_candidates {
        return Err(LexicalError::CandidateBudgetExceeded { maximum: limits.max_candidates });
    }
    if corpus.total_field_lengths.len() != fields {
        return Err(LexicalError::MalformedProjection);
    }
    let mut keys: Vec<&[u8]> = Vec::new();
    let mut k: usize = 0;
    while k < corpus.documents.len()
        invariant
            k <= ds.len(),
            ds == corpus.documents@,
            keys@.len() == k,
            forall|j: int| 0 <= j < k ==> (#[trigger] keys@[j])@ == ds[j].key@,
        decreases ds.len() - k,
    {
        keys.push(corpus.documents[k].key.as_slice());
        k = k + 1;
    }
    let repeats = earlier_repeats(&keys);
    proof {
        assert(slices_model(keys@) == materialized_keys(ds));
        assert(materialized_fault(*corpus, fields as int, query, *limits) == document_fault(ds, fields as int, query, 0));
    }
    let mut i: usize = 0;
    while i < corpus.documents.len()
        invariant
            i <= ds.len(),
            ds == corpus.documents@,
            query == strings_chars(query_tokens@),
            fields == definition.fields@.len(),
            repeats@.len() == ds.len(),
            forall|j: int| 0 <= j < ds.len() ==> repeats@[j] == repeats_earlier(materialized_keys(ds), j),
            document_fault(ds, fields as int, query, 0) == document_fault(ds, fields as int, query, i as int),
            materialized_fault(*corpus, fields as int, query, *limits) == document_fault(ds, fields as int, query, 0),
        decreases ds.len() - i,
    {
        let d = &corpus.documents[i];
        if d.key.len() == 0 {
            return Err(LexicalError::EmptyDocumentKey);
        }
        if repeats[i] {
            return Err(LexicalError::DuplicateDocumentKey);
        }
        if document_shape_malformed(d, fields, query_tokens) {
            return Err(LexicalError::MalformedProjection);
        }
        i = i + 1;
    }
    Ok(())
}


// ---------------------------------------------------------------------------
// Term statistics.

/// How many tokens of `tokens` equal `token`.
pub open spec fn occurrences(tokens: Seq<Seq<char>>, token: Seq<char>) -> nat
    decreases tokens.len(),
{
    if tokens.len() == 0 {
        0
    } else {
        occurrences(tokens.subrange(0, tokens.len() - 1), token) + if tokens[tokens.len() - 1] == token {
            1nat
        } else {
            0nat
        }
    }
}

/// The number of occurrences of `token` in one field's tokens.
pub fn term_frequency(field: &Vec<String>, token: &String) -> (r: u64)
    ensures
        r == occurrences(strings_chars(field@), token@),
{
    let ghost ts = strings_chars(field@);
    let mut count: u64 = 0;
    let mut i: usize = 0;
    while i < field.len()
        invariant
            i <= field@.len(),
            ts == strings_chars(field@),
            count == occurrences(ts.subrange(0, i as int), token@),
            count <= i,
        decreases field@.len() - i,
    {
        let ghost p = ts.subrange(0, i + 1);
        proof {
            assert(p.subrange(0, p.len() - 1) =~= ts.subrange(0, i as int));
            assert(p[p.len() - 1] == field@[i as int]@);
        }
        if field[i] == *token {
            count = count + 1;
        }
        i = i + 1;
    }
    proof {
        assert(ts.subrange(0, ts.len() as int) =~= ts);
    }
    count
}

/// Some field of the document holds `token`.
pub open spec fn has_token(document: AnalyzedDocument, token: Seq<char>) -> bool {
    exists|f: int, k: int|
        0 <= f < document.fields@.len() && 0 <= k < document.fields@[f]@.len() && #[trigger] document.fields@[f]@[k]@
            == token
}

/// How many of the documents hold `token`.
pub open spec fn documents_with(documents: Seq<AnalyzedDocument>, token: Seq<char>) -> nat
    decreases documents.len(),
{
    if documents.len() == 0 {
        0
    } else {
        documents_with(documents.subrange(0, documents.len() - 1), token) + if has_token(
            documents[documents.len() - 1],
            token,
        ) {
            1nat
        } else {
            0nat
        }
    }
}

/// The number of documents of the corpus that hold `token`.
pub fn document_frequency(corpus: &AnalyzedCorpus, token: &String) -> (r: u64)
    ensures
        r == documents_with(corpus.documents@, token@),
{
    let ghost ds = corpus.documents@;
    let mut count: u64 = 0;
    let mut i: usize = 0;
    while i < corpus.documents.len()
        invariant
            i <= ds.len(),
            ds == corpus.documents@,
            count == documents_with(ds.subrange(0, i as int), token@),
            count <= i,
        decreases ds.len() - i,
    {
        let ghost p = ds.subrange(0, i + 1);
        proof {
            assert(p.subrange(0, p.len() - 1) =~= ds.subrange(0, i as int));
            assert(p[p.len() - 1] == ds[i as int]);
        }
        if document_has_token(&corpus.documents[i], token) {
            count = count + 1;
        }
        i = i + 1;
    }
    proof {
        assert(ds.subrange(0, ds.len() as int) =~= ds);
    }
    count
}

/// Whether any field of an analyzed document holds `token`.
pub fn document_has_token(document: &AnalyzedDocument, token: &String) -> (r: bool)
    ensures
        r == has_token(*document, token@),
{
    let mut f: usize = 0;
    while f < document.fields.len()
        invariant
            f <= document.fields@.len(),
            forall|g: int, k: int|
                0 <= g < f && 0 <= k < document.fields@[g]@.len() ==> #[trigger] document.fields@[g]@[k]@ != token@,
        decreases document.fields@.len() - f,
    {
        let field = &document.fields[f];
        let mut k: usize = 0;
        while k < field.len()
            invariant
                f < document.fields@.len(),
                *field == document.fields@[f as int],
                k <= field@.len(),
                forall|j: int| 0 <= j < k ==> (#[trigger] field@[j])@ != token@,
            decreases field@.len() - k,
        {
            if field[k] == *token {
                return true;
            }
            k = k + 1;
        }
        f = f + 1;
    }
    false
}

} // verus!
