//! Canonical lexical-retrieval proofs: the lexical request and outcome
//! codecs and their validation against tokenizer v1.
use vstd::prelude::*;
use vstd::utf8::{encode_utf8, valid_utf8};

use crate::document::{
    copy_range, extend, le_u16, le_u32, le_u64, lemma_u16_le_round_trip, lemma_u32_le_round_trip,
    lemma_u64_le_round_trip, push_u16_le, push_u32_le, push_u64_le, read_u16_le, read_u32_le, read_u64_le, u16_le,
    u32_le, u64_le, utf8_text,
};
use crate::lexical::{
    tokenize_v1, tokens_v1, strings_chars, LexicalAbstention, LexicalAbstentionReason,
    LexicalFieldContribution, LexicalMatch, LexicalOutcome, LexicalRequest, LexicalTermContribution,
    MAX_LEXICAL_PATH_SEGMENTS, MAX_LEXICAL_TOKEN_BYTES,
};
use crate::digest::blake3_hash;
use crate::retrieval_proof::{
    anchor_canonical, anchor_domain, anchor_identity_bytes, decode_envelope, digest_at, digest_or_zero, encode_envelope,
    envelope_error, envelope_size_fault, i64_le, lemma_anchor_equal, lemma_envelope_from_parts, lemma_envelope_layout,
    name_field, prefixed, proof_envelope, proof_payload, push_i64_le, read_space_name, take_prefixed, validate_anchor,
    zero_digest,
    RetrievalProofAnchor, RetrievalProofError, SnapshotInfo, LEXICAL_OPERATION, LEXICAL_RETRIEVAL_SEMANTICS_VERSION,
    MAX_KEY_BYTES,
};
use crate::shared::is_canonical_space_name;
use crate::value::{bytes_order, compare_paths, compare_strings, path_order, Comparison};

verus! {

// ---------------------------------------------------------------------------
// Concatenated encodings.

/// The encodings of the items of `s`, concatenated in order.
pub open spec fn flat<A>(s: Seq<A>, f: spec_fn(A) -> Seq<u8>) -> Seq<u8>
    decreases s.len(),
{
    if s.len() == 0 {
        Seq::empty()
    } else {
        flat(s.drop_last(), f) + f(s.last())
    }
}

pub proof fn lemma_flat_push<A>(s: Seq<A>, x: A, f: spec_fn(A) -> Seq<u8>)
    ensures
        flat(s.push(x), f) == flat(s, f) + f(x),
{
    assert(s.push(x).drop_last() =~= s);
}

pub proof fn lemma_flat_concat<A>(a: Seq<A>, b: Seq<A>, f: spec_fn(A) -> Seq<u8>)
    ensures
        flat(a + b, f) == flat(a, f) + flat(b, f),
    decreases b.len(),
{
    if b.len() == 0 {
        assert(a + b =~= a);
        assert(flat(a, f) + flat(b, f) =~= flat(a, f));
    } else {
        lemma_flat_concat(a, b.drop_last(), f);
        assert((a + b).drop_last() =~= a + b.drop_last());
        assert((a + b).last() == b.last());
        assert(flat(a + b, f) =~= flat(a, f) + flat(b, f));
    }
}

pub proof fn lemma_flat_at<A>(s: Seq<A>, i: int, f: spec_fn(A) -> Seq<u8>)
    requires
        0 <= i < s.len(),
    ensures
        flat(s, f) == flat(s.take(i), f) + f(s[i]) + flat(s.skip(i + 1), f),
        s.take(i + 1) == s.take(i).push(s[i]),
{
    lemma_flat_concat(s.take(i + 1), s.skip(i + 1), f);
    assert(s.take(i + 1) + s.skip(i + 1) =~= s);
    assert(s.take(i + 1) =~= s.take(i).push(s[i]));
    lemma_flat_push(s.take(i), s[i], f);
}

// ---------------------------------------------------------------------------
// Models.

/// Mathematical model of a field contribution.
pub struct FieldContributionModel {
    pub path: Seq<Seq<u8>>,
    pub term_frequency: u64,
    pub field_length: u64,
}

/// Mathematical model of a term contribution; the token as characters.
pub struct TermModel {
    pub token: Seq<char>,
    pub document_frequency: u64,
    pub score_nanos: i64,
    pub fields: Seq<FieldContributionModel>,
}

/// Mathematical model of a lexical match.
pub struct LexMatchModel {
    pub key: Seq<u8>,
    pub score_nanos: i64,
    pub terms: Seq<TermModel>,
}

/// Mathematical model of a lexical outcome; tokens as characters.
pub enum LexOutcomeModel {
    Matches {
        matches: Seq<LexMatchModel>,
        scanned_documents: u64,
        matched_documents: u64,
        query_tokens: Seq<Seq<char>>,
    },
    Abstained { scanned_documents: u64, query_tokens: Seq<Seq<char>> },
}

/// Mathematical model of a lexical request.
pub struct LexRequestModel {
    pub index: Seq<u8>,
    pub query: Seq<char>,
    pub limit: usize,
}

pub open spec fn field_contribution_model(f: LexicalFieldContribution) -> FieldContributionModel {
    FieldContributionModel { path: f.path@, term_frequency: f.term_frequency, field_length: f.field_length }
}

pub open spec fn field_contributions_model(fs: Seq<LexicalFieldContribution>) -> Seq<FieldContributionModel> {
    Seq::new(fs.len(), |k: int| field_contribution_model(fs[k]))
}

pub open spec fn term_model(t: LexicalTermContribution) -> TermModel {
    TermModel {
        token: t.token@,
        document_frequency: t.document_frequency,
        score_nanos: t.score_nanos,
        fields: field_contributions_model(t.fields@),
    }
}

pub open spec fn terms_model(ts: Seq<LexicalTermContribution>) -> Seq<TermModel> {
    Seq::new(ts.len(), |j: int| term_model(ts[j]))
}

pub open spec fn lex_match_model(m: LexicalMatch) -> LexMatchModel {
    LexMatchModel { key: m.key@, score_nanos: m.score_nanos, terms: terms_model(m.terms@) }
}

pub open spec fn lex_matches_model(ms: Seq<LexicalMatch>) -> Seq<LexMatchModel> {
    Seq::new(ms.len(), |i: int| lex_match_model(ms[i]))
}

/// The model of a lexical outcome.
pub open spec fn lex_outcome_model(o: LexicalOutcome) -> LexOutcomeModel {
    match o {
        LexicalOutcome::Matches { matches, scanned_documents, matched_documents, query_tokens } => {
            LexOutcomeModel::Matches {
                matches: lex_matches_model(matches@),
                scanned_documents,
                matched_documents,
                query_tokens: strings_chars(query_tokens@),
            }
        },
        LexicalOutcome::Abstained(a) => LexOutcomeModel::Abstained {
            scanned_documents: a.scanned_documents,
            query_tokens: strings_chars(a.query_tokens@),
        },
    }
}

/// The model of a lexical request.
pub open spec fn lex_request_model(r: LexicalRequest) -> LexRequestModel {
    LexRequestModel { index: r.index@, query: r.query@, limit: r.limit }
}

/// The canonical query tokens of an outcome.
pub open spec fn outcome_query_tokens(o: LexOutcomeModel) -> Seq<Seq<char>> {
    match o {
        LexOutcomeModel::Matches { query_tokens, .. } => query_tokens,
        LexOutcomeModel::Abstained { query_tokens, .. } => query_tokens,
    }
}

// ---------------------------------------------------------------------------
// Bytes.

/// Bytes behind their 16-bit length.
pub open spec fn str16(s: Seq<u8>) -> Seq<u8> {
    u16_le(s.len() as u16) + s
}

/// Bytes behind their 32-bit length.
pub open spec fn str32(s: Seq<u8>) -> Seq<u8> {
    u32_le(s.len() as u32) + s
}

/// The encoder of a path segment.
pub open spec fn segment_encoder() -> spec_fn(Seq<u8>) -> Seq<u8> {
    |s: Seq<u8>| str16(s)
}

/// A path: segment count, then each segment behind its length.
pub open spec fn path_bytes(p: Seq<Seq<u8>>) -> Seq<u8> {
    u16_le(p.len() as u16) + flat(p, segment_encoder())
}

/// A field contribution: path, term frequency, field length.
pub open spec fn field_contribution_bytes(f: FieldContributionModel) -> Seq<u8> {
    path_bytes(f.path) + u64_le(f.term_frequency) + u64_le(f.field_length)
}

/// The encoder of a field contribution.
pub open spec fn field_encoder() -> spec_fn(FieldContributionModel) -> Seq<u8> {
    |f: FieldContributionModel| field_contribution_bytes(f)
}

/// A term: token, document frequency, score, then its fields with their
/// count.
pub open spec fn term_bytes(t: TermModel) -> Seq<u8> {
    str32(encode_utf8(t.token)) + u64_le(t.document_frequency) + i64_le(t.score_nanos) + u64_le(
        t.fields.len() as u64,
    ) + flat(t.fields, field_encoder())
}

/// The encoder of a term.
pub open spec fn term_encoder() -> spec_fn(TermModel) -> Seq<u8> {
    |t: TermModel| term_bytes(t)
}

/// A match: key, score, then its terms with their count.
pub open spec fn lex_match_bytes(m: LexMatchModel) -> Seq<u8> {
    str32(m.key) + i64_le(m.score_nanos) + u64_le(m.terms.len() as u64) + flat(m.terms, term_encoder())
}

/// The encoder of a match.
pub open spec fn lex_match_encoder() -> spec_fn(LexMatchModel) -> Seq<u8> {
    |m: LexMatchModel| lex_match_bytes(m)
}

/// The encoder of a token.
pub open spec fn token_encoder() -> spec_fn(Seq<char>) -> Seq<u8> {
    |t: Seq<char>| str32(encode_utf8(t))
}

/// A token list: count, then each token behind its length.
pub open spec fn token_list_bytes(ts: Seq<Seq<char>>) -> Seq<u8> {
    u64_le(ts.len() as u64) + flat(ts, token_encoder())
}

/// Canonical outcome bytes.
pub open spec fn lex_outcome_bytes(o: LexOutcomeModel) -> Seq<u8> {
    match o {
        LexOutcomeModel::Matches { matches, scanned_documents, matched_documents, query_tokens } => seq![1u8]
            + u64_le(scanned_documents) + u64_le(matched_documents) + token_list_bytes(query_tokens) + u64_le(
            matches.len() as u64,
        ) + flat(matches, lex_match_encoder()),
        LexOutcomeModel::Abstained { scanned_documents, query_tokens } => seq![2u8, 1u8] + u64_le(
            scanned_documents,
        ) + token_list_bytes(query_tokens),
    }
}

/// Canonical request bytes: index name, query text, limit.
pub open spec fn lex_request_bytes(r: LexRequestModel) -> Seq<u8> {
    str16(r.index) + str32(encode_utf8(r.query)) + u64_le(r.limit as u64)
}

// ---------------------------------------------------------------------------
// Validation of embedded models.

/// Byte order of two tokens' UTF-8 encodings.
pub open spec fn token_order(a: Seq<char>, b: Seq<char>) -> int {
    bytes_order(encode_utf8(a), encode_utf8(b))
}

/// Tokens strictly increase in byte order.
pub open spec fn tokens_strictly_sorted(ts: Seq<Seq<char>>) -> bool {
    forall|i: int, j: int| 0 <= i < j < ts.len() ==> token_order(#[trigger] ts[i], #[trigger] ts[j]) < 0
}

/// `ts` lists each token of `tokens` exactly once, in increasing byte order.
pub open spec fn canonical_token_list(ts: Seq<Seq<char>>, tokens: Seq<Seq<char>>) -> bool {
    &&& tokens_strictly_sorted(ts)
    &&& forall|x: Seq<char>| #[trigger] ts.contains(x) <==> tokens.contains(x)
}

/// A request with a nonzero limit whose query yields a token.
pub open spec fn lex_request_valid(m: LexRequestModel) -> bool {
    m.limit != 0 && tokens_v1(m.query).len() != 0
}

/// The sum of the first `j` term scores.
pub open spec fn score_prefix(ts: Seq<TermModel>, j: int) -> int
    decreases j,
{
    if j <= 0 {
        0
    } else {
        score_prefix(ts, j - 1) + ts[j - 1].score_nanos
    }
}

/// Some running sum of the term scores leaves the 64-bit range.
pub open spec fn term_sum_overflows(ts: Seq<TermModel>) -> bool {
    exists|j: int| 1 <= j <= ts.len() && !(i64::MIN <= #[trigger] score_prefix(ts, j) <= i64::MAX)
}

/// Field `k` has a nonempty path of at most 32 segments, after its
/// predecessor's path.
pub open spec fn field_contribution_ok(fs: Seq<FieldContributionModel>, k: int) -> bool {
    &&& fs[k].path.len() != 0
    &&& fs[k].path.len() <= MAX_LEXICAL_PATH_SEGMENTS
    &&& k > 0 ==> path_order(fs[k - 1].path, fs[k].path) < 0
}

/// Every field contribution is well formed and in path order.
pub open spec fn fields_valid(fs: Seq<FieldContributionModel>) -> bool {
    forall|k: int| 0 <= k < fs.len() ==> #[trigger] field_contribution_ok(fs, k)
}

/// Term `j` has a kept token after its predecessor's, a document frequency
/// in `1..=scanned`, and a positive score.
pub open spec fn term_ok(ts: Seq<TermModel>, j: int, scanned: u64) -> bool {
    &&& ts[j].token.len() != 0
    &&& encode_utf8(ts[j].token).len() <= MAX_LEXICAL_TOKEN_BYTES
    &&& ts[j].document_frequency != 0
    &&& ts[j].document_frequency <= scanned
    &&& ts[j].score_nanos > 0
    &&& j > 0 ==> token_order(ts[j - 1].token, ts[j].token) < 0
}

/// The first term fault from index `j` on.
pub open spec fn terms_fault(ts: Seq<TermModel>, j: int, scanned: u64) -> Option<&'static str>
    decreases ts.len() - j,
{
    if j < 0 || j >= ts.len() {
        None
    } else if !term_ok(ts, j, scanned) {
        Some("invalid lexical term contribution")
    } else if !fields_valid(ts[j].fields) {
        Some("invalid lexical field contribution")
    } else {
        terms_fault(ts, j + 1, scanned)
    }
}

/// A nonempty key within the storage bound and a positive score.
pub open spec fn lex_match_ok(m: LexMatchModel) -> bool {
    0 < m.key.len() <= MAX_KEY_BYTES && m.score_nanos > 0
}

/// `a` ranks strictly before `b`: higher score, then smaller key.
pub open spec fn lex_precedes(a: LexMatchModel, b: LexMatchModel) -> bool {
    a.score_nanos > b.score_nanos || (a.score_nanos == b.score_nanos && bytes_order(a.key, b.key) < 0)
}

/// The first match fault from index `i` on.
pub open spec fn lex_matches_fault(ms: Seq<LexMatchModel>, i: int, scanned: u64) -> Option<&'static str>
    decreases ms.len() - i,
{
    if i < 0 || i >= ms.len() {
        None
    } else if !lex_match_ok(ms[i]) {
        Some("invalid lexical match")
    } else if i > 0 && !lex_precedes(ms[i - 1], ms[i]) {
        Some("lexical matches are not canonically ordered")
    } else if term_sum_overflows(ms[i].terms) {
        Some("lexical score overflow")
    } else if score_prefix(ms[i].terms, ms[i].terms.len() as int) != ms[i].score_nanos {
        Some("lexical term scores do not sum to match score")
    } else if terms_fault(ms[i].terms, 0, scanned) is Some {
        terms_fault(ms[i].terms, 0, scanned)
    } else {
        lex_matches_fault(ms, i + 1, scanned)
    }
}

/// The fault of an outcome for a request, checked in order: query tokens,
/// match counts, then each match.
pub open spec fn lex_outcome_fault(req: LexRequestModel, o: LexOutcomeModel) -> Option<&'static str> {
    if !canonical_token_list(outcome_query_tokens(o), tokens_v1(req.query)) {
        Some("noncanonical lexical query tokens")
    } else {
        match o {
            LexOutcomeModel::Abstained { .. } => None,
            LexOutcomeModel::Matches { matches, scanned_documents, matched_documents, .. } => {
                if matches.len() == 0 || matches.len() > req.limit || matched_documents < matches.len()
                    || matched_documents > scanned_documents {
                    Some("invalid lexical match counts")
                } else {
                    lex_matches_fault(matches, 0, scanned_documents)
                }
            },
        }
    }
}

// ---------------------------------------------------------------------------
// Checks.

proof fn lemma_token_order(a: Seq<char>, b: Seq<char>, c: Seq<char>)
    ensures
        token_order(a, b) == -token_order(b, a),
        (token_order(a, b) == 0) == (a == b),
        token_order(a, b) < 0 && token_order(b, c) < 0 ==> token_order(a, c) < 0,
{
    crate::value::lemma_bytes_order_antisym(encode_utf8(a), encode_utf8(b));
    crate::value::lemma_bytes_order_antisym(encode_utf8(b), encode_utf8(c));
    crate::value::lemma_bytes_order_antisym(encode_utf8(a), encode_utf8(c));
    vstd::utf8::encode_utf8_decode_utf8(a);
    vstd::utf8::encode_utf8_decode_utf8(b);
    if token_order(a, b) < 0 && token_order(b, c) < 0 {
        crate::value::lemma_bytes_order_trans(encode_utf8(a), encode_utf8(b), encode_utf8(c));
    }
}

/// Two strictly sorted token lists with the same members are equal.
proof fn lemma_sorted_tokens_unique(a: Seq<Seq<char>>, b: Seq<Seq<char>>)
    requires
        tokens_strictly_sorted(a),
        tokens_strictly_sorted(b),
        forall|x: Seq<char>| #[trigger] a.contains(x) <==> b.contains(x),
    ensures
        a == b,
    decreases a.len() + b.len(),
{
    if a.len() == 0 || b.len() == 0 {
        if b.len() > 0 {
            assert(b.contains(b[0]));
            assert(a.contains(b[0]));
        }
        if a.len() > 0 {
            assert(a.contains(a[0]));
            assert(b.contains(a[0]));
        }
        assert(a =~= b);
    } else {
        assert(a.contains(a[0]));
        assert(b.contains(a[0]));
        assert(a.contains(b[0]));
        let i = choose|i: int| 0 <= i < b.len() && b[i] == a[0];
        let j = choose|j: int| 0 <= j < a.len() && a[j] == b[0];
        lemma_token_order(a[0], b[0], a[0]);
        if a[0] != b[0] {
            assert(i != 0 && j != 0);
            assert(token_order(b[0], b[i]) < 0);
            assert(token_order(a[0], a[j]) < 0);
        }
        let a1 = a.drop_first();
        let b1 = b.drop_first();
        assert forall|x: Seq<char>| #[trigger] a1.contains(x) <==> b1.contains(x) by {
            if a1.contains(x) {
                let k = choose|k: int| 0 <= k < a1.len() && a1[k] == x;
                assert(a[k + 1] == x);
                assert(a.contains(x));
                assert(token_order(a[0], a[k + 1]) < 0);
                lemma_token_order(a[0], x, a[0]);
                let m = choose|m: int| 0 <= m < b.len() && b[m] == x;
                assert(m != 0);
                assert(b1[m - 1] == x);
            }
            if b1.contains(x) {
                let k = choose|k: int| 0 <= k < b1.len() && b1[k] == x;
                assert(b[k + 1] == x);
                assert(b.contains(x));
                assert(a.contains(x));
                assert(token_order(b[0], b[k + 1]) < 0);
                lemma_token_order(b[0], x, b[0]);
                let m = choose|m: int| 0 <= m < a.len() && a[m] == x;
                assert(m != 0);
                assert(a1[m - 1] == x);
            }
        }
        lemma_sorted_tokens_unique(a1, b1);
        assert(a =~= seq![a[0]] + a1);
        assert(b =~= seq![b[0]] + b1);
    }
}

proof fn lemma_insert_token_sorted(o: Seq<Seq<char>>, p: int, tc: Seq<char>)
    requires
        tokens_strictly_sorted(o),
        0 <= p <= o.len(),
        forall|q: int| 0 <= q < p ==> token_order(#[trigger] o[q], tc) < 0,
        p < o.len() ==> token_order(tc, o[p]) < 0,
    ensures
        tokens_strictly_sorted(o.insert(p, tc)),
{
    let n = o.insert(p, tc);
    assert forall|a: int, b: int| 0 <= a < b < n.len() implies token_order(#[trigger] n[a], #[trigger] n[b]) < 0 by {
        if b < p {
            assert(n[a] == o[a] && n[b] == o[b]);
        } else if b == p {
            assert(n[a] == o[a] && n[b] == tc);
        } else if a < p {
            assert(n[a] == o[a] && n[b] == o[b - 1]);
            if b - 1 > p {
                lemma_token_order(tc, o[p], o[b - 1]);
            }
            lemma_token_order(o[a], tc, o[b - 1]);
        } else if a == p {
            assert(n[a] == tc && n[b] == o[b - 1]);
            if b - 1 > p {
                lemma_token_order(tc, o[p], o[b - 1]);
            }
        } else {
            assert(n[a] == o[a - 1] && n[b] == o[b - 1]);
        }
    }
}

proof fn lemma_insert_token_members(o: Seq<Seq<char>>, p: int, tc: Seq<char>, prior: Seq<Seq<char>>)
    requires
        0 <= p <= o.len(),
        forall|x: Seq<char>| #[trigger] o.contains(x) <==> prior.contains(x),
    ensures
        forall|x: Seq<char>| #[trigger] o.insert(p, tc).contains(x) <==> prior.push(tc).contains(x),
{
    let n = o.insert(p, tc);
    let next = prior.push(tc);
    assert forall|x: Seq<char>| #[trigger] n.contains(x) <==> next.contains(x) by {
        if n.contains(x) {
            let k = choose|k: int| 0 <= k < n.len() && n[k] == x;
            if k == p {
                assert(next[prior.len() as int] == x);
            } else {
                if k < p {
                    assert(o[k] == x);
                } else {
                    assert(o[k - 1] == x);
                }
                assert(o.contains(x));
                assert(prior.contains(x));
                let m = choose|m: int| 0 <= m < prior.len() && prior[m] == x;
                assert(next[m] == x);
            }
        }
        if next.contains(x) {
            let k = choose|k: int| 0 <= k < next.len() && next[k] == x;
            if k == prior.len() {
                assert(n[p] == x);
            } else {
                assert(prior[k] == x);
                assert(prior.contains(x));
                assert(o.contains(x));
                let m = choose|m: int| 0 <= m < o.len() && o[m] == x;
                if m < p {
                    assert(n[m] == x);
                } else {
                    assert(n[m + 1] == x);
                }
            }
        }
    }
}

proof fn lemma_duplicate_token_members(o: Seq<Seq<char>>, p: int, tc: Seq<char>, prior: Seq<Seq<char>>)
    requires
        0 <= p < o.len(),
        o[p] == tc,
        forall|x: Seq<char>| #[trigger] o.contains(x) <==> prior.contains(x),
    ensures
        forall|x: Seq<char>| #[trigger] o.contains(x) <==> prior.push(tc).contains(x),
{
    let next = prior.push(tc);
    assert forall|x: Seq<char>| #[trigger] o.contains(x) <==> next.contains(x) by {
        if o.contains(x) {
            assert(prior.contains(x));
            let m = choose|m: int| 0 <= m < prior.len() && prior[m] == x;
            assert(next[m] == x);
        }
        if next.contains(x) {
            let k = choose|k: int| 0 <= k < next.len() && next[k] == x;
            if k == prior.len() {
                assert(o[p] == x);
            } else {
                assert(prior[k] == x);
                assert(prior.contains(x));
            }
        }
    }
}

/// The first position whose token is not before `t`.
fn token_position(out: &Vec<String>, t: &String) -> (p: usize)
    ensures
        p <= out@.len(),
        forall|q: int| 0 <= q < p ==> token_order((#[trigger] out@[q])@, t@) < 0,
        p < out@.len() ==> token_order(out@[p as int]@, t@) >= 0,
{
    let mut p: usize = 0;
    while p < out.len()
        invariant
            p <= out@.len(),
            forall|q: int| 0 <= q < p ==> token_order((#[trigger] out@[q])@, t@) < 0,
        decreases out@.len() - p,
    {
        let c = compare_strings(out[p].as_str(), t.as_str());
        match c {
            Comparison::Less => {},
            _ => {
                return p;
            },
        }
        p = p + 1;
    }
    p
}

/// The distinct tokens in increasing byte order.
pub(crate) fn canonical_tokens(tokens: Vec<String>) -> (r: Vec<String>)
    ensures
        canonical_token_list(strings_chars(r@), strings_chars(tokens@)),
{
    let ghost all = strings_chars(tokens@);
    let mut out: Vec<String> = Vec::new();
    let mut i: usize = 0;
    proof {
        assert(strings_chars(out@) =~= Seq::<Seq<char>>::empty());
    }
    while i < tokens.len()
        invariant
            all == strings_chars(tokens@),
            i <= tokens@.len(),
            tokens_strictly_sorted(strings_chars(out@)),
            forall|x: Seq<char>| #[trigger] strings_chars(out@).contains(x) <==> all.take(i as int).contains(x),
        decreases tokens@.len() - i,
    {
        let t = &tokens[i];
        let p = token_position(&out, t);
        let ghost o = strings_chars(out@);
        let ghost tc = t@;
        proof {
            assert(all[i as int] == tc);
            assert(all.take(i + 1) =~= all.take(i as int).push(tc));
        }
        let duplicate = p < out.len() && out[p] == *t;
        if duplicate {
            proof {
                lemma_duplicate_token_members(o, p as int, tc, all.take(i as int));
            }
        } else {
            out.insert(p, t.clone());
            proof {
                assert(strings_chars(out@) =~= o.insert(p as int, tc));
                if p < o.len() {
                    lemma_token_order(o[p as int], tc, o[p as int]);
                }
                lemma_insert_token_sorted(o, p as int, tc);
                lemma_insert_token_members(o, p as int, tc, all.take(i as int));
            }
        }
        i = i + 1;
    }
    proof {
        assert(all.take(all.len() as int) =~= all);
    }
    out
}

/// Checks an embedded lexical request: a nonzero limit and a query with a
/// token.
pub(crate) fn validate_lexical_request(request: &LexicalRequest) -> (r: Result<(), RetrievalProofError>)
    ensures
        lex_request_valid(lex_request_model(*request)) ==> r is Ok,
        !lex_request_valid(lex_request_model(*request)) ==> r == Err::<(), RetrievalProofError>(
            RetrievalProofError::Invalid { reason: "invalid lexical request" },
        ),
{
    let tokens = tokenize_v1(request.query.as_str());
    if request.limit == 0 || tokens.len() == 0 {
        return Err(RetrievalProofError::Invalid { reason: "invalid lexical request" });
    }
    Ok(())
}

fn check_field_contributions(fields: &Vec<LexicalFieldContribution>) -> (r: bool)
    ensures
        r == fields_valid(field_contributions_model(fields@)),
{
    let ghost fs = field_contributions_model(fields@);
    let mut k: usize = 0;
    while k < fields.len()
        invariant
            fs == field_contributions_model(fields@),
            k <= fs.len(),
            forall|q: int| 0 <= q < k ==> #[trigger] field_contribution_ok(fs, q),
        decreases fs.len() - k,
    {
        let n = fields[k].path.segments().len();
        proof {
            assert(fs[k as int] == field_contribution_model(fields@[k as int]));
            if k > 0 {
                assert(fs[k - 1] == field_contribution_model(fields@[k - 1]));
            }
        }
        if n == 0 || n > MAX_LEXICAL_PATH_SEGMENTS {
            proof {
                assert(!field_contribution_ok(fs, k as int));
            }
            return false;
        }
        if k > 0 {
            match compare_paths(&fields[k - 1].path, &fields[k].path) {
                Comparison::Less => {},
                _ => {
                    proof {
                        assert(!field_contribution_ok(fs, k as int));
                    }
                    return false;
                },
            }
        }
        proof {
            assert(field_contribution_ok(fs, k as int));
        }
        k = k + 1;
    }
    true
}

fn term_score_sum(terms: &Vec<LexicalTermContribution>) -> (r: Option<i64>)
    ensures
        r is None <==> term_sum_overflows(terms_model(terms@)),
        r matches Some(total) ==> total == score_prefix(terms_model(terms@), terms@.len() as int),
{
    let ghost ts = terms_model(terms@);
    let mut sum: i64 = 0;
    let mut j: usize = 0;
    while j < terms.len()
        invariant
            ts == terms_model(terms@),
            j <= ts.len(),
            sum == score_prefix(ts, j as int),
            forall|k: int| 1 <= k <= j ==> i64::MIN <= #[trigger] score_prefix(ts, k) <= i64::MAX,
        decreases ts.len() - j,
    {
        proof {
            assert(ts[j as int] == term_model(terms@[j as int]));
            assert(score_prefix(ts, j + 1) == score_prefix(ts, j as int) + ts[j as int].score_nanos);
        }
        match sum.checked_add(terms[j].score_nanos) {
            Some(next) => {
                sum = next;
            },
            None => {
                proof {
                    assert(!(i64::MIN <= score_prefix(ts, j + 1) <= i64::MAX));
                }
                return None;
            },
        }
        j = j + 1;
    }
    Some(sum)
}

fn check_terms(terms: &Vec<LexicalTermContribution>, scanned: u64) -> (r: Option<&'static str>)
    ensures
        r == terms_fault(terms_model(terms@), 0, scanned),
{
    let ghost ts = terms_model(terms@);
    let mut j: usize = 0;
    while j < terms.len()
        invariant
            ts == terms_model(terms@),
            j <= ts.len(),
            terms_fault(ts, 0, scanned) == terms_fault(ts, j as int, scanned),
        decreases ts.len() - j,
    {
        let term = &terms[j];
        proof {
            assert(ts[j as int] == term_model(terms@[j as int]));
            if j > 0 {
                assert(ts[j - 1] == term_model(terms@[j - 1]));
            }
        }
        let token = term.token.as_str();
        let mut ok = !token.is_empty() && token.as_bytes().len() <= MAX_LEXICAL_TOKEN_BYTES
            && term.document_frequency != 0 && term.document_frequency <= scanned && term.score_nanos > 0;
        if ok && j > 0 {
            match compare_strings(terms[j - 1].token.as_str(), token) {
                Comparison::Less => {},
                _ => {
                    ok = false;
                },
            }
        }
        proof {
            assert(ok == term_ok(ts, j as int, scanned));
        }
        if !ok {
            return Some("invalid lexical term contribution");
        }
        if !check_field_contributions(&term.fields) {
            return Some("invalid lexical field contribution");
        }
        j = j + 1;
    }
    None
}

fn check_lex_matches(matches: &Vec<LexicalMatch>, scanned: u64) -> (r: Option<&'static str>)
    ensures
        r == lex_matches_fault(lex_matches_model(matches@), 0, scanned),
{
    let ghost ms = lex_matches_model(matches@);
    let mut i: usize = 0;
    while i < matches.len()
        invariant
            ms == lex_matches_model(matches@),
            i <= ms.len(),
            lex_matches_fault(ms, 0, scanned) == lex_matches_fault(ms, i as int, scanned),
        decreases ms.len() - i,
    {
        let matched = &matches[i];
        proof {
            assert(ms[i as int] == lex_match_model(matches@[i as int]));
            if i > 0 {
                assert(ms[i - 1] == lex_match_model(matches@[i - 1]));
            }
        }
        if matched.key.len() == 0 || matched.key.len() > MAX_KEY_BYTES || matched.score_nanos <= 0 {
            return Some("invalid lexical match");
        }
        if i > 0 {
            let previous = &matches[i - 1];
            if previous.score_nanos < matched.score_nanos {
                return Some("lexical matches are not canonically ordered");
            }
            if previous.score_nanos == matched.score_nanos {
                match crate::value::compare_bytes(previous.key.as_slice(), matched.key.as_slice()) {
                    Comparison::Less => {},
                    _ => {
                        return Some("lexical matches are not canonically ordered");
                    },
                }
            }
        }
        let total = match term_score_sum(&matched.terms) {
            Some(t) => t,
            None => {
                return Some("lexical score overflow");
            },
        };
        if total != matched.score_nanos {
            return Some("lexical term scores do not sum to match score");
        }
        match check_terms(&matched.terms, scanned) {
            Some(reason) => {
                return Some(reason);
            },
            None => {},
        }
        i = i + 1;
    }
    None
}

pub(crate) fn strings_equal(a: &Vec<String>, b: &Vec<String>) -> (r: bool)
    ensures
        r == (strings_chars(a@) == strings_chars(b@)),
{
    if a.len() != b.len() {
        proof {
            assert(strings_chars(a@).len() != strings_chars(b@).len());
        }
        return false;
    }
    let mut i: usize = 0;
    while i < a.len()
        invariant
            a@.len() == b@.len(),
            i <= a@.len(),
            forall|k: int| 0 <= k < i ==> #[trigger] a@[k]@ == b@[k]@,
        decreases a@.len() - i,
    {
        if a[i] != b[i] {
            proof {
                assert(strings_chars(a@)[i as int] != strings_chars(b@)[i as int]);
            }
            return false;
        }
        i = i + 1;
    }
    proof {
        assert(strings_chars(a@) =~= strings_chars(b@));
    }
    true
}

/// Checks an embedded lexical outcome against its request.
pub(crate) fn validate_lexical_outcome(request: &LexicalRequest, outcome: &LexicalOutcome) -> (r: Result<(), RetrievalProofError>)
    ensures
        match lex_outcome_fault(lex_request_model(*request), lex_outcome_model(*outcome)) {
            Some(reason) => r == Err::<(), RetrievalProofError>(RetrievalProofError::Invalid { reason }),
            None => r is Ok,
        },
{
    let ghost om = lex_outcome_model(*outcome);
    let expected = canonical_tokens(tokenize_v1(request.query.as_str()));
    let query_tokens = match outcome {
        LexicalOutcome::Matches { query_tokens, .. } => query_tokens,
        LexicalOutcome::Abstained(a) => &a.query_tokens,
    };
    let same = strings_equal(query_tokens, &expected);
    proof {
        assert(outcome_query_tokens(om) == strings_chars(query_tokens@));
        if !same && canonical_token_list(strings_chars(query_tokens@), tokens_v1(request.query@)) {
            lemma_sorted_tokens_unique(strings_chars(query_tokens@), strings_chars(expected@));
        }
    }
    if !same {
        return Err(RetrievalProofError::Invalid { reason: "noncanonical lexical query tokens" });
    }
    match outcome {
        LexicalOutcome::Abstained(_) => Ok(()),
        LexicalOutcome::Matches { matches, scanned_documents, matched_documents, .. } => {
            if matches.len() == 0 || matches.len() > request.limit || (*matched_documents as u128) < (matches.len() as u128)
                || *matched_documents > *scanned_documents {
                return Err(RetrievalProofError::Invalid { reason: "invalid lexical match counts" });
            }
            match check_lex_matches(matches, *scanned_documents) {
                Some(reason) => Err(RetrievalProofError::Invalid { reason }),
                None => Ok(()),
            }
        },
    }
}

// ---------------------------------------------------------------------------
// Encoding.

/// Every length of a path fits its 16-bit field.
pub open spec fn path_fits(p: Seq<Seq<u8>>) -> bool {
    p.len() <= u16::MAX && forall|i: int| 0 <= i < p.len() ==> (#[trigger] p[i]).len() <= u16::MAX
}

/// Every length of a term fits its field.
pub open spec fn term_fits(t: TermModel) -> bool {
    &&& encode_utf8(t.token).len() <= u32::MAX
    &&& forall|k: int| 0 <= k < t.fields.len() ==> path_fits((#[trigger] t.fields[k]).path)
}

/// Every length of a match fits its field.
pub open spec fn lex_match_fits(m: LexMatchModel) -> bool {
    m.key.len() <= u32::MAX && forall|j: int| 0 <= j < m.terms.len() ==> term_fits(#[trigger] m.terms[j])
}

/// Every token length fits 32 bits.
pub open spec fn tokens_fit(ts: Seq<Seq<char>>) -> bool {
    forall|i: int| 0 <= i < ts.len() ==> encode_utf8(#[trigger] ts[i]).len() <= u32::MAX
}

/// Every length of an outcome fits its field.
pub open spec fn lex_outcome_fits(o: LexOutcomeModel) -> bool {
    &&& tokens_fit(outcome_query_tokens(o))
    &&& o matches LexOutcomeModel::Matches { matches, .. } ==> forall|i: int|
        0 <= i < matches.len() ==> lex_match_fits(#[trigger] matches[i])
}

/// Every length of a request fits its field.
pub open spec fn lex_request_fits(r: LexRequestModel) -> bool {
    r.index.len() <= u16::MAX && encode_utf8(r.query).len() <= u32::MAX
}

fn push_str16(out: &mut Vec<u8>, b: &[u8]) -> (r: Result<(), RetrievalProofError>)
    ensures
        b@.len() <= u16::MAX ==> r is Ok && final(out)@ == old(out)@ + str16(b@),
        b@.len() > u16::MAX ==> r == Err::<(), RetrievalProofError>(RetrievalProofError::LengthOverflow),
{
    if b.len() > 65535 {
        return Err(RetrievalProofError::LengthOverflow);
    }
    push_u16_le(out, b.len() as u16);
    extend(out, b);
    proof {
        assert(final(out)@ =~= old(out)@ + str16(b@));
    }
    Ok(())
}

pub(crate) fn push_str32(out: &mut Vec<u8>, b: &[u8]) -> (r: Result<(), RetrievalProofError>)
    ensures
        b@.len() <= u32::MAX ==> r is Ok && final(out)@ == old(out)@ + str32(b@),
        b@.len() > u32::MAX ==> r == Err::<(), RetrievalProofError>(RetrievalProofError::LengthOverflow),
{
    if b.len() > 4294967295 {
        return Err(RetrievalProofError::LengthOverflow);
    }
    push_u32_le(out, b.len() as u32);
    extend(out, b);
    proof {
        assert(final(out)@ =~= old(out)@ + str32(b@));
    }
    Ok(())
}

fn push_path(out: &mut Vec<u8>, path: &crate::value::FieldPath) -> (r: Result<(), RetrievalProofError>)
    ensures
        path_fits(path@) ==> r is Ok && final(out)@ == old(out)@ + path_bytes(path@),
        !path_fits(path@) ==> r == Err::<(), RetrievalProofError>(RetrievalProofError::LengthOverflow),
{
    let segments = path.segments();
    let ghost p = path@;
    if segments.len() > 65535 {
        return Err(RetrievalProofError::LengthOverflow);
    }
    push_u16_le(out, segments.len() as u16);
    let ghost start = out@;
    let mut i: usize = 0;
    proof {
        assert(p.take(0) =~= Seq::<Seq<u8>>::empty());
    }
    while i < segments.len()
        invariant
            p == path@,
            crate::value::strings_bytes(segments@) == p,
            i <= p.len(),
            out@ == start + flat(p.take(i as int), segment_encoder()),
            forall|q: int| 0 <= q < i ==> (#[trigger] p[q]).len() <= u16::MAX,
        decreases p.len() - i,
    {
        let b = segments[i].as_str().as_bytes();
        proof {
            assert(b@ == p[i as int]);
        }
        match push_str16(out, b) {
            Ok(()) => {},
            Err(e) => {
                return Err(e);
            },
        }
        proof {
            lemma_flat_push(p.take(i as int), p[i as int], segment_encoder());
            assert(p.take(i + 1) =~= p.take(i as int).push(p[i as int]));
        }
        i = i + 1;
    }
    proof {
        assert(p.take(p.len() as int) =~= p);
    }
    Ok(())
}

fn push_field_contribution(out: &mut Vec<u8>, f: &LexicalFieldContribution) -> (r: Result<(), RetrievalProofError>)
    ensures
        path_fits(f.path@) ==> r is Ok && final(out)@ == old(out)@ + field_contribution_bytes(field_contribution_model(*f)),
        !path_fits(f.path@) ==> r == Err::<(), RetrievalProofError>(RetrievalProofError::LengthOverflow),
{
    match push_path(out, &f.path) {
        Ok(()) => {},
        Err(e) => {
            return Err(e);
        },
    }
    push_u64_le(out, f.term_frequency);
    push_u64_le(out, f.field_length);
    proof {
        assert(final(out)@ =~= old(out)@ + field_contribution_bytes(field_contribution_model(*f)));
    }
    Ok(())
}

fn push_term(out: &mut Vec<u8>, t: &LexicalTermContribution) -> (r: Result<(), RetrievalProofError>)
    ensures
        term_fits(term_model(*t)) ==> r is Ok && final(out)@ == old(out)@ + term_bytes(term_model(*t)),
        !term_fits(term_model(*t)) ==> r == Err::<(), RetrievalProofError>(RetrievalProofError::LengthOverflow),
{
    let ghost tm = term_model(*t);
    let ghost start0 = out@;
    match push_str32(out, t.token.as_str().as_bytes()) {
        Ok(()) => {},
        Err(e) => {
            return Err(e);
        },
    }
    push_u64_le(out, t.document_frequency);
    push_i64_le(out, t.score_nanos);
    push_u64_le(out, t.fields.len() as u64);
    let ghost start = out@;
    let ghost fs = tm.fields;
    let mut k: usize = 0;
    proof {
        assert(fs.take(0) =~= Seq::<FieldContributionModel>::empty());
    }
    while k < t.fields.len()
        invariant
            tm == term_model(*t),
            fs == tm.fields,
            k <= fs.len(),
            out@ == start + flat(fs.take(k as int), field_encoder()),
            forall|q: int| 0 <= q < k ==> path_fits((#[trigger] fs[q]).path),
        decreases fs.len() - k,
    {
        proof {
            assert(fs[k as int] == field_contribution_model(t.fields@[k as int]));
        }
        match push_field_contribution(out, &t.fields[k]) {
            Ok(()) => {},
            Err(e) => {
                proof {
                    assert(!path_fits(fs[k as int].path));
                }
                return Err(e);
            },
        }
        proof {
            lemma_flat_push(fs.take(k as int), fs[k as int], field_encoder());
            assert(fs.take(k + 1) =~= fs.take(k as int).push(fs[k as int]));
        }
        k = k + 1;
    }
    proof {
        assert(fs.take(fs.len() as int) =~= fs);
        assert(out@ =~= start0 + term_bytes(tm));
    }
    Ok(())
}

fn push_lex_match(out: &mut Vec<u8>, m: &LexicalMatch) -> (r: Result<(), RetrievalProofError>)
    ensures
        lex_match_fits(lex_match_model(*m)) ==> r is Ok && final(out)@ == old(out)@ + lex_match_bytes(lex_match_model(*m)),
        !lex_match_fits(lex_match_model(*m)) ==> r == Err::<(), RetrievalProofError>(RetrievalProofError::LengthOverflow),
{
    let ghost mm = lex_match_model(*m);
    let ghost start0 = out@;
    match push_str32(out, m.key.as_slice()) {
        Ok(()) => {},
        Err(e) => {
            return Err(e);
        },
    }
    push_i64_le(out, m.score_nanos);
    push_u64_le(out, m.terms.len() as u64);
    let ghost start = out@;
    let ghost ts = mm.terms;
    let mut j: usize = 0;
    proof {
        assert(ts.take(0) =~= Seq::<TermModel>::empty());
    }
    while j < m.terms.len()
        invariant
            mm == lex_match_model(*m),
            ts == mm.terms,
            j <= ts.len(),
            out@ == start + flat(ts.take(j as int), term_encoder()),
            forall|q: int| 0 <= q < j ==> term_fits(#[trigger] ts[q]),
        decreases ts.len() - j,
    {
        proof {
            assert(ts[j as int] == term_model(m.terms@[j as int]));
        }
        match push_term(out, &m.terms[j]) {
            Ok(()) => {},
            Err(e) => {
                return Err(e);
            },
        }
        proof {
            lemma_flat_push(ts.take(j as int), ts[j as int], term_encoder());
            assert(ts.take(j + 1) =~= ts.take(j as int).push(ts[j as int]));
        }
        j = j + 1;
    }
    proof {
        assert(ts.take(ts.len() as int) =~= ts);
        assert(out@ =~= start0 + lex_match_bytes(mm));
    }
    Ok(())
}

fn push_tokens(out: &mut Vec<u8>, tokens: &Vec<String>) -> (r: Result<(), RetrievalProofError>)
    ensures
        tokens_fit(strings_chars(tokens@)) ==> r is Ok && final(out)@ == old(out)@ + token_list_bytes(strings_chars(tokens@)),
        !tokens_fit(strings_chars(tokens@)) ==> r == Err::<(), RetrievalProofError>(RetrievalProofError::LengthOverflow),
{
    let ghost ts = strings_chars(tokens@);
    let ghost start0 = out@;
    push_u64_le(out, tokens.len() as u64);
    let ghost start = out@;
    let mut i: usize = 0;
    proof {
        assert(ts.take(0) =~= Seq::<Seq<char>>::empty());
    }
    while i < tokens.len()
        invariant
            ts == strings_chars(tokens@),
            i <= ts.len(),
            out@ == start + flat(ts.take(i as int), token_encoder()),
            forall|q: int| 0 <= q < i ==> encode_utf8(#[trigger] ts[q]).len() <= u32::MAX,
        decreases ts.len() - i,
    {
        let b = tokens[i].as_str().as_bytes();
        proof {
            assert(ts[i as int] == tokens@[i as int]@);
        }
        match push_str32(out, b) {
            Ok(()) => {},
            Err(e) => {
                return Err(e);
            },
        }
        proof {
            lemma_flat_push(ts.take(i as int), ts[i as int], token_encoder());
            assert(ts.take(i + 1) =~= ts.take(i as int).push(ts[i as int]));
        }
        i = i + 1;
    }
    proof {
        assert(ts.take(ts.len() as int) =~= ts);
        assert(out@ =~= start0 + token_list_bytes(ts));
    }
    Ok(())
}

/// Canonical bytes of a lexical request whose lengths fit.
pub(crate) fn encode_lexical_request(request: &LexicalRequest) -> (r: Result<Vec<u8>, RetrievalProofError>)
    ensures
        lex_request_fits(lex_request_model(*request)) ==> (r matches Ok(b) && b@ == lex_request_bytes(lex_request_model(*request))),
        !lex_request_fits(lex_request_model(*request)) ==> r == Err::<Vec<u8>, RetrievalProofError>(RetrievalProofError::LengthOverflow),
{
    let mut out: Vec<u8> = Vec::new();
    match push_str16(&mut out, request.index.as_str().as_bytes()) {
        Ok(()) => {},
        Err(e) => {
            return Err(e);
        },
    }
    match push_str32(&mut out, request.query.as_str().as_bytes()) {
        Ok(()) => {},
        Err(e) => {
            return Err(e);
        },
    }
    push_u64_le(&mut out, request.limit as u64);
    proof {
        assert(out@ =~= lex_request_bytes(lex_request_model(*request)));
    }
    Ok(out)
}

/// Canonical bytes of a lexical outcome whose lengths fit.
pub(crate) fn encode_lexical_outcome(outcome: &LexicalOutcome) -> (r: Result<Vec<u8>, RetrievalProofError>)
    ensures
        lex_outcome_fits(lex_outcome_model(*outcome)) ==> (r matches Ok(b) && b@ == lex_outcome_bytes(lex_outcome_model(*outcome))),
        !lex_outcome_fits(lex_outcome_model(*outcome)) ==> r == Err::<Vec<u8>, RetrievalProofError>(RetrievalProofError::LengthOverflow),
{
    let ghost om = lex_outcome_model(*outcome);
    let mut out: Vec<u8> = Vec::new();
    match outcome {
        LexicalOutcome::Matches { matches, scanned_documents, matched_documents, query_tokens } => {
            out.push(1);
            push_u64_le(&mut out, *scanned_documents);
            push_u64_le(&mut out, *matched_documents);
            match push_tokens(&mut out, query_tokens) {
                Ok(()) => {},
                Err(e) => {
                    return Err(e);
                },
            }
            push_u64_le(&mut out, matches.len() as u64);
            let ghost start = out@;
            let ghost ms = lex_matches_model(matches@);
            let mut i: usize = 0;
            proof {
                assert(ms.take(0) =~= Seq::<LexMatchModel>::empty());
            }
            while i < matches.len()
                invariant
                    ms == lex_matches_model(matches@),
                    om == lex_outcome_model(*outcome),
                    om == (LexOutcomeModel::Matches {
                        matches: ms,
                        scanned_documents: *scanned_documents,
                        matched_documents: *matched_documents,
                        query_tokens: strings_chars(query_tokens@),
                    }),
                    i <= ms.len(),
                    out@ == start + flat(ms.take(i as int), lex_match_encoder()),
                    forall|q: int| 0 <= q < i ==> lex_match_fits(#[trigger] ms[q]),
                decreases ms.len() - i,
            {
                proof {
                    assert(ms[i as int] == lex_match_model(matches@[i as int]));
                }
                match push_lex_match(&mut out, &matches[i]) {
                    Ok(()) => {},
                    Err(e) => {
                        proof {
                            assert(!lex_match_fits(ms[i as int]));
                            assert(om->matches == ms);
                            assert(!(forall|q: int| 0 <= q < ms.len() ==> lex_match_fits(#[trigger] ms[q])));
                            assert(!lex_outcome_fits(om));
                        }
                        return Err(e);
                    },
                }
                proof {
                    lemma_flat_push(ms.take(i as int), ms[i as int], lex_match_encoder());
                    assert(ms.take(i + 1) =~= ms.take(i as int).push(ms[i as int]));
                }
                i = i + 1;
            }
            proof {
                assert(ms.take(ms.len() as int) =~= ms);
                assert(out@ =~= lex_outcome_bytes(om));
            }
        },
        LexicalOutcome::Abstained(a) => {
            out.push(2);
            out.push(1);
            push_u64_le(&mut out, a.scanned_documents);
            match push_tokens(&mut out, &a.query_tokens) {
                Ok(()) => {},
                Err(e) => {
                    return Err(e);
                },
            }
            proof {
                assert(out@ =~= lex_outcome_bytes(om));
            }
        },
    }
    Ok(out)
}

// ---------------------------------------------------------------------------
// Decoding: items at a position.

/// Most items in one decoded proof collection.
pub const MAX_PROOF_COLLECTION_ITEMS: usize = 1_000_000;

/// `x` satisfies `shape`, and its encoding stands in `b` at `pos`, ending
/// by `end`.
pub open spec fn item_at<A>(x: A, f: spec_fn(A) -> Seq<u8>, shape: spec_fn(A) -> bool, b: Seq<u8>, pos: int, end: int) -> bool {
    &&& shape(x)
    &&& pos + f(x).len() <= end
    &&& f(x) == b.subrange(pos, pos + f(x).len())
}

/// `e` holds `count` items satisfying `shape` whose encodings stand in `b`
/// from `pos`, ending by `end`.
pub open spec fn items_fill<A>(
    e: Seq<A>,
    f: spec_fn(A) -> Seq<u8>,
    shape: spec_fn(A) -> bool,
    b: Seq<u8>,
    pos: int,
    end: int,
    count: int,
) -> bool {
    &&& e.len() == count
    &&& forall|i: int| 0 <= i < e.len() ==> shape(#[trigger] e[i])
    &&& pos + flat(e, f).len() <= end
    &&& flat(e, f) == b.subrange(pos, pos + flat(e, f).len())
}

pub proof fn lemma_items_step<A>(
    e: Seq<A>,
    f: spec_fn(A) -> Seq<u8>,
    shape: spec_fn(A) -> bool,
    b: Seq<u8>,
    pos: int,
    cur: int,
    end: int,
    count: int,
    i: int,
)
    requires
        items_fill(e, f, shape, b, pos, end, count),
        0 <= i < count,
        0 <= pos <= cur <= end <= b.len(),
        b.subrange(pos, cur) == flat(e.take(i), f),
    ensures
        item_at(e[i], f, shape, b, cur, end),
        e.take(i + 1) == e.take(i).push(e[i]),
{
    lemma_flat_at(e, i, f);
    let before = flat(e.take(i), f);
    let here = f(e[i]);
    let total = flat(e, f);
    assert(total.len() == before.len() + here.len() + flat(e.skip(i + 1), f).len());
    assert(cur - pos == before.len());
    assert(b.subrange(cur, cur + here.len()) =~= total.subrange(before.len() as int, (before.len() + here.len()) as int));
    assert(total.subrange(before.len() as int, (before.len() + here.len()) as int) =~= here);
}

/// A path segment of 1 to 1024 bytes of UTF-8.
pub open spec fn segment_shape(s: Seq<u8>) -> bool {
    1 <= s.len() <= crate::lexical::MAX_LEXICAL_PATH_SEGMENT_BYTES && valid_utf8(s)
}

pub open spec fn segment_shape_fn() -> spec_fn(Seq<u8>) -> bool {
    |s: Seq<u8>| segment_shape(s)
}

/// A path of 1 to 32 decodable segments.
pub open spec fn path_shape(p: Seq<Seq<u8>>) -> bool {
    &&& 1 <= p.len() <= MAX_LEXICAL_PATH_SEGMENTS
    &&& forall|i: int| 0 <= i < p.len() ==> segment_shape(#[trigger] p[i])
}

#[verifier::spinoff_prover]
#[verifier::rlimit(40)]
fn read_segment(b: &[u8], pos: usize, end: usize) -> (r: Result<(String, usize), RetrievalProofError>)
    requires
        pos <= end <= b@.len(),
    ensures
        r matches Ok((s, next)) ==> pos <= next <= end && b@.subrange(pos as int, next as int) == str16(encode_utf8(s@))
            && segment_shape(encode_utf8(s@)),
        forall|x: Seq<u8>| #[trigger] item_at(x, segment_encoder(), segment_shape_fn(), b@, pos as int, end as int) ==> (
        r matches Ok((s, next)) && encode_utf8(s@) == x && next == pos + str16(x).len()),
{
    proof {
        assert forall|x: Seq<u8>| #[trigger] item_at(x, segment_encoder(), segment_shape_fn(), b@, pos as int, end as int)
            implies end - pos >= 2 && le_u16(b@.subrange(pos as int, pos + 2)) == x.len() && b@.subrange(pos + 2, pos + 2 + x.len()) == x && pos + 2 + x.len() <= end by {
            let e = str16(x);
            assert(segment_encoder()(x) == e);
            assert(b@.subrange(pos as int, pos + 2) =~= e.subrange(0, 2));
            assert(e.subrange(0, 2) =~= u16_le(x.len() as u16));
            lemma_u16_le_round_trip(x.len() as u16);
            assert(b@.subrange(pos + 2, pos + 2 + x.len()) =~= e.subrange(2, e.len() as int));
        }
    }
    if end - pos < 2 {
        return Err(RetrievalProofError::Invalid { reason: "truncated payload" });
    }
    let length = read_u16_le(b, pos) as usize;
    if length == 0 || length > crate::lexical::MAX_LEXICAL_PATH_SEGMENT_BYTES {
        return Err(RetrievalProofError::Invalid { reason: "invalid lexical field path segment" });
    }
    let p1 = pos + 2;
    if end - p1 < length {
        return Err(RetrievalProofError::Invalid { reason: "truncated payload" });
    }
    let bytes = copy_range(b, p1, p1 + length);
    let text = match utf8_text(bytes.as_slice()) {
        Some(t) => t,
        None => {
            return Err(RetrievalProofError::Invalid { reason: "lexical field path is not UTF-8" });
        },
    };
    let next = p1 + length;
    proof {
        crate::retrieval_proof::lemma_le_u16_bytes(b@.subrange(pos as int, pos + 2));
        assert(b@.subrange(pos as int, next as int) =~= str16(encode_utf8(text@)));
        vstd::utf8::encode_utf8_valid_utf8(text@);
    }
    Ok((text, next))
}

pub open spec fn path_encoder() -> spec_fn(Seq<Seq<u8>>) -> Seq<u8> {
    |p: Seq<Seq<u8>>| path_bytes(p)
}

pub open spec fn path_shape_fn() -> spec_fn(Seq<Seq<u8>>) -> bool {
    |p: Seq<Seq<u8>>| path_shape(p)
}

#[verifier::spinoff_prover]
#[verifier::rlimit(40)]
fn read_path(b: &[u8], pos: usize, end: usize) -> (r: Result<(crate::value::FieldPath, usize), RetrievalProofError>)
    requires
        pos <= end <= b@.len(),
    ensures
        r matches Ok((p, next)) ==> pos <= next <= end && b@.subrange(pos as int, next as int) == path_bytes(p@)
            && path_shape(p@),
        forall|x: Seq<Seq<u8>>| #[trigger] item_at(x, path_encoder(), path_shape_fn(), b@, pos as int, end as int) ==> (
        r matches Ok((p, next)) && p@ == x && next == pos + path_bytes(x).len()),
{
    proof {
        assert forall|x: Seq<Seq<u8>>| #[trigger] item_at(x, path_encoder(), path_shape_fn(), b@, pos as int, end as int)
            implies end - pos >= 2 && le_u16(b@.subrange(pos as int, pos + 2)) == x.len() && 1 <= x.len() <= MAX_LEXICAL_PATH_SEGMENTS
            && items_fill(x, segment_encoder(), segment_shape_fn(), b@, pos + 2, end as int, x.len() as int) by {
            let e = path_bytes(x);
            assert(path_encoder()(x) == e);
            assert(b@.subrange(pos as int, pos + 2) =~= e.subrange(0, 2));
            assert(e.subrange(0, 2) =~= u16_le(x.len() as u16));
            lemma_u16_le_round_trip(x.len() as u16);
            let fl = flat(x, segment_encoder());
            assert(path_shape(x));
            assert(e.len() == 2 + fl.len());
            assert(e.subrange(2, e.len() as int) =~= fl);
            assert(b@.subrange(pos + 2, pos + 2 + fl.len()) =~= e.subrange(2, e.len() as int));
            assert forall|i: int| 0 <= i < x.len() implies segment_shape_fn()(#[trigger] x[i]) by {
                assert(segment_shape(x[i]));
            }
        }
    }
    if end - pos < 2 {
        return Err(RetrievalProofError::Invalid { reason: "truncated payload" });
    }
    let count = read_u16_le(b, pos) as usize;
    if count == 0 || count > MAX_LEXICAL_PATH_SEGMENTS {
        return Err(RetrievalProofError::Invalid { reason: "invalid lexical field path length" });
    }
    let start = pos + 2;
    let mut segments: Vec<String> = Vec::new();
    let mut cur = start;
    let mut i: usize = 0;
    proof {
        assert(b@.subrange(start as int, start as int) =~= Seq::<u8>::empty());
        assert(crate::value::strings_bytes(segments@) =~= Seq::<Seq<u8>>::empty());
        assert forall|x: Seq<Seq<u8>>| #[trigger] items_fill(x, segment_encoder(), segment_shape_fn(), b@, start as int, end as int, count as int) implies crate::value::strings_bytes(segments@) == x.take(0) by {
            assert(x.take(0) =~= Seq::<Seq<u8>>::empty());
        }
    }
    while i < count
        invariant
            start == pos + 2,
            start <= cur <= end <= b@.len(),
            i <= count,
            segments@.len() == i,
            forall|x: Seq<Seq<u8>>| #[trigger] item_at(x, path_encoder(), path_shape_fn(), b@, pos as int, end as int)
                ==> items_fill(x, segment_encoder(), segment_shape_fn(), b@, start as int, end as int, count as int),
            forall|q: int| 0 <= q < i ==> segment_shape(#[trigger] crate::value::strings_bytes(segments@)[q]),
            b@.subrange(start as int, cur as int) == flat(crate::value::strings_bytes(segments@), segment_encoder()),
            forall|x: Seq<Seq<u8>>| #[trigger] items_fill(x, segment_encoder(), segment_shape_fn(), b@, start as int, end as int, count as int)
                ==> crate::value::strings_bytes(segments@) == x.take(i as int),
        decreases count - i,
    {
        let (segment, next) = match read_segment(b, cur, end) {
            Ok(found) => found,
            Err(err) => {
                proof {
                    assert forall|x: Seq<Seq<u8>>| #[trigger] items_fill(x, segment_encoder(), segment_shape_fn(), b@, start as int, end as int, count as int) implies false by {
                        lemma_items_step(x, segment_encoder(), segment_shape_fn(), b@, start as int, cur as int, end as int, count as int, i as int);
                    }
                }
                return Err(err);
            },
        };
        let ghost before = crate::value::strings_bytes(segments@);
        let ghost sb = encode_utf8(segment@);
        segments.push(segment);
        proof {
            assert(crate::value::strings_bytes(segments@) =~= before.push(sb));
            lemma_flat_push(before, sb, segment_encoder());
            assert(b@.subrange(start as int, next as int) =~= b@.subrange(start as int, cur as int) + b@.subrange(cur as int, next as int));
            assert forall|x: Seq<Seq<u8>>| #[trigger] items_fill(x, segment_encoder(), segment_shape_fn(), b@, start as int, end as int, count as int) implies crate::value::strings_bytes(segments@) == x.take(i + 1) by {
                lemma_items_step(x, segment_encoder(), segment_shape_fn(), b@, start as int, cur as int, end as int, count as int, i as int);
            }
        }
        cur = next;
        i = i + 1;
    }
    let path = crate::value::FieldPath::new(segments);
    proof {
        crate::retrieval_proof::lemma_le_u16_bytes(b@.subrange(pos as int, pos + 2));
        assert(b@.subrange(pos as int, cur as int) =~= b@.subrange(pos as int, start as int) + b@.subrange(start as int, cur as int));
        assert(b@.subrange(pos as int, cur as int) =~= path_bytes(path@));
        assert forall|x: Seq<Seq<u8>>| #[trigger] item_at(x, path_encoder(), path_shape_fn(), b@, pos as int, end as int) implies path@ == x by {
            assert(x.take(count as int) =~= x);
        }
    }
    Ok((path, cur))
}

/// Reads a collection count at `pos`: at most one million items.
pub(crate) fn read_count(b: &[u8], pos: usize, end: usize) -> (r: Result<(usize, usize), RetrievalProofError>)
    requires
        pos <= end <= b@.len(),
    ensures
        r matches Ok((n, next)) ==> next == pos + 8 && next <= end && n == le_u64(b@.subrange(pos as int, pos + 8))
            && n <= MAX_PROOF_COLLECTION_ITEMS,
        pos + 8 <= end && le_u64(b@.subrange(pos as int, pos + 8)) <= MAX_PROOF_COLLECTION_ITEMS ==> r is Ok,
{
    if end - pos < 8 {
        return Err(RetrievalProofError::Invalid { reason: "truncated payload" });
    }
    let n = read_u64_le(b, pos);
    if n > usize::MAX as u64 {
        return Err(RetrievalProofError::LengthOverflow);
    }
    if n as usize > MAX_PROOF_COLLECTION_ITEMS {
        return Err(RetrievalProofError::Invalid { reason: "proof collection count exceeds hard bound" });
    }
    Ok((n as usize, pos + 8))
}

/// Reads a 32-bit length at `pos` and returns the bounds of the bytes
/// behind it.
pub(crate) fn read_str32(b: &[u8], pos: usize, end: usize) -> (r: Result<(usize, usize), RetrievalProofError>)
    requires
        pos <= end <= b@.len(),
    ensures
        r matches Ok((s, t)) ==> s == pos + 4 && s <= t <= end && t - s <= u32::MAX && b@.subrange(pos as int, t as int) == str32(
            b@.subrange(s as int, t as int),
        ),
        forall|x: Seq<u8>|
            x.len() <= u32::MAX && pos + 4 + x.len() <= end && #[trigger] str32(x) == b@.subrange(pos as int, pos + 4 + x.len())
                ==> r == Ok::<(usize, usize), RetrievalProofError>(((pos + 4) as usize, (pos + 4 + x.len()) as usize)),
{
    proof {
        assert forall|x: Seq<u8>|
            x.len() <= u32::MAX && pos + 4 + x.len() <= end && #[trigger] str32(x) == b@.subrange(pos as int, pos + 4 + x.len())
            implies le_u32(b@.subrange(pos as int, pos + 4)) == x.len() by {
            assert(b@.subrange(pos as int, pos + 4) =~= str32(x).subrange(0, 4));
            assert(str32(x).subrange(0, 4) =~= u32_le(x.len() as u32));
            lemma_u32_le_round_trip(x.len() as u32);
        }
    }
    if end - pos < 4 {
        return Err(RetrievalProofError::Invalid { reason: "truncated payload" });
    }
    let length = read_u32_le(b, pos) as usize;
    let start = pos + 4;
    if end - start < length {
        return Err(RetrievalProofError::Invalid { reason: "truncated payload" });
    }
    let stop = start + length;
    proof {
        crate::retrieval_proof::lemma_le_u32_bytes(b@.subrange(pos as int, pos + 4));
        assert(b@.subrange(pos as int, stop as int) =~= str32(b@.subrange(start as int, stop as int)));
    }
    Ok((start, stop))
}

pub(crate) proof fn lemma_str32_payload(b: Seq<u8>, pos: int, x: Seq<u8>)
    requires
        0 <= pos,
        pos + 4 + x.len() <= b.len(),
        str32(x) == b.subrange(pos, pos + 4 + x.len()),
    ensures
        b.subrange(pos + 4, pos + 4 + x.len()) == x,
{
    assert(b.subrange(pos + 4, pos + 4 + x.len()) =~= str32(x).subrange(4, 4 + x.len() as int));
    assert(str32(x).subrange(4, 4 + x.len() as int) =~= x);
}

/// Reads a 32-bit length-prefixed UTF-8 string at `pos`.
#[verifier::rlimit(30)]
fn read_text32(b: &[u8], pos: usize, end: usize, reason: &'static str) -> (r: Result<(String, usize), RetrievalProofError>)
    requires
        pos <= end <= b@.len(),
    ensures
        r matches Ok((s, next)) ==> pos <= next <= end && b@.subrange(pos as int, next as int) == str32(encode_utf8(s@))
            && encode_utf8(s@).len() <= u32::MAX,
        forall|x: Seq<char>|
            encode_utf8(x).len() <= u32::MAX && pos + 4 + encode_utf8(x).len() <= end && #[trigger] str32(encode_utf8(x))
                == b@.subrange(pos as int, pos + 4 + encode_utf8(x).len()) ==> (r matches Ok((s, next)) && s@ == x && next
                == pos + 4 + encode_utf8(x).len()),
{
    let (start, stop) = match read_str32(b, pos, end) {
        Ok(found) => found,
        Err(e) => {
            return Err(e);
        },
    };
    let bytes = copy_range(b, start, stop);
    let text = match utf8_text(bytes.as_slice()) {
        Some(t) => t,
        None => {
            proof {
                assert forall|x: Seq<char>|
                    encode_utf8(x).len() <= u32::MAX && pos + 4 + encode_utf8(x).len() <= end && #[trigger] str32(encode_utf8(x))
                        == b@.subrange(pos as int, pos + 4 + encode_utf8(x).len()) implies false by {
                    lemma_str32_payload(b@, pos as int, encode_utf8(x));
                    vstd::utf8::encode_utf8_valid_utf8(x);
                }
            }
            return Err(RetrievalProofError::Invalid { reason });
        },
    };
    proof {
        assert(encode_utf8(text@) == b@.subrange(start as int, stop as int));
        assert forall|x: Seq<char>|
            encode_utf8(x).len() <= u32::MAX && pos + 4 + encode_utf8(x).len() <= end && #[trigger] str32(encode_utf8(x))
                == b@.subrange(pos as int, pos + 4 + encode_utf8(x).len()) implies text@ == x by {
            lemma_str32_payload(b@, pos as int, encode_utf8(x));
            vstd::utf8::encode_utf8_decode_utf8(x);
            vstd::utf8::encode_utf8_decode_utf8(text@);
        }
    }
    Ok((text, stop))
}

/// A field contribution that decoding can produce.
pub open spec fn field_shape(f: FieldContributionModel) -> bool {
    path_shape(f.path)
}

pub open spec fn field_shape_fn() -> spec_fn(FieldContributionModel) -> bool {
    |f: FieldContributionModel| field_shape(f)
}

#[verifier::spinoff_prover]
#[verifier::rlimit(40)]
fn read_field_contribution(b: &[u8], pos: usize, end: usize) -> (r: Result<(LexicalFieldContribution, usize), RetrievalProofError>)
    requires
        pos <= end <= b@.len(),
    ensures
        r matches Ok((f, next)) ==> pos <= next <= end && b@.subrange(pos as int, next as int)
            == field_contribution_bytes(field_contribution_model(f)) && field_shape(field_contribution_model(f)),
        forall|x: FieldContributionModel| #[trigger] item_at(x, field_encoder(), field_shape_fn(), b@, pos as int, end as int) ==> (
        r matches Ok((f, next)) && field_contribution_model(f) == x && next == pos + field_contribution_bytes(x).len()),
{
    proof {
        assert forall|x: FieldContributionModel| #[trigger] item_at(x, field_encoder(), field_shape_fn(), b@, pos as int, end as int)
            implies item_at(x.path, path_encoder(), path_shape_fn(), b@, pos as int, end as int) by {
            let e = field_contribution_bytes(x);
            let pb = path_bytes(x.path);
            assert(field_encoder()(x) == e);
            assert(path_encoder()(x.path) == pb);
            assert(path_shape_fn()(x.path) == path_shape(x.path));
            assert(b@.subrange(pos as int, pos + pb.len()) =~= e.subrange(0, pb.len() as int));
            assert(e.subrange(0, pb.len() as int) =~= pb);
        }
    }
    let (path, p1) = match read_path(b, pos, end) {
        Ok(found) => found,
        Err(e) => {
            return Err(e);
        },
    };
    proof {
        assert forall|x: FieldContributionModel| #[trigger] item_at(x, field_encoder(), field_shape_fn(), b@, pos as int, end as int)
            implies p1 + 16 <= end && le_u64(b@.subrange(p1 as int, p1 + 8)) == x.term_frequency && le_u64(
            b@.subrange(p1 + 8, p1 + 16),
        ) == x.field_length by {
            let e = field_contribution_bytes(x);
            let n = path_bytes(x.path).len() as int;
            assert(field_encoder()(x) == e);
            assert(p1 == pos + n);
            assert(b@.subrange(p1 as int, p1 + 8) =~= e.subrange(n, n + 8));
            assert(e.subrange(n, n + 8) =~= u64_le(x.term_frequency));
            assert(b@.subrange(p1 + 8, p1 + 16) =~= e.subrange(n + 8, n + 16));
            assert(e.subrange(n + 8, n + 16) =~= u64_le(x.field_length));
            lemma_u64_le_round_trip(x.term_frequency);
            lemma_u64_le_round_trip(x.field_length);
        }
    }
    if end - p1 < 16 {
        return Err(RetrievalProofError::Invalid { reason: "truncated payload" });
    }
    let term_frequency = read_u64_le(b, p1);
    let field_length = read_u64_le(b, p1 + 8);
    let next = p1 + 16;
    let f = LexicalFieldContribution { path, term_frequency, field_length };
    proof {
        crate::document::lemma_le_u64_bytes(b@.subrange(p1 as int, p1 + 8));
        crate::document::lemma_le_u64_bytes(b@.subrange(p1 + 8, p1 + 16));
        assert(b@.subrange(pos as int, next as int) =~= field_contribution_bytes(field_contribution_model(f)));
    }
    Ok((f, next))
}

/// A term that decoding can produce.
pub open spec fn term_shape(t: TermModel) -> bool {
    &&& encode_utf8(t.token).len() <= u32::MAX
    &&& t.fields.len() <= MAX_PROOF_COLLECTION_ITEMS
    &&& forall|k: int| 0 <= k < t.fields.len() ==> field_shape(#[trigger] t.fields[k])
}

pub open spec fn term_shape_fn() -> spec_fn(TermModel) -> bool {
    |t: TermModel| term_shape(t)
}

proof fn lemma_term_parts(x: TermModel, b: Seq<u8>, pos: int, end: int)
    requires
        0 <= pos <= end <= b.len(),
        item_at(x, term_encoder(), term_shape_fn(), b, pos, end),
    ensures
        ({
            let l = encode_utf8(x.token).len() as int;
            let p1 = pos + 4 + l;
            &&& encode_utf8(x.token).len() <= u32::MAX
            &&& p1 + encode_utf8(x.token).len() - l + 24 <= end
            &&& str32(encode_utf8(x.token)) == b.subrange(pos, p1)
            &&& le_u64(b.subrange(p1, p1 + 8)) == x.document_frequency
            &&& le_u64(b.subrange(p1 + 8, p1 + 16)) as i64 == x.score_nanos
            &&& le_u64(b.subrange(p1 + 16, p1 + 24)) == x.fields.len()
            &&& x.fields.len() <= MAX_PROOF_COLLECTION_ITEMS
            &&& items_fill(x.fields, field_encoder(), field_shape_fn(), b, p1 + 24, end, x.fields.len() as int)
            &&& pos + term_bytes(x).len() == p1 + 24 + flat(x.fields, field_encoder()).len()
        }),
{
    let e = term_bytes(x);
    assert(term_encoder()(x) == e);
    assert(term_shape(x));
    let t = encode_utf8(x.token);
    let l = t.len() as int;
    let p1 = pos + 4 + l;
    let fl = flat(x.fields, field_encoder());
    assert(e.len() == 4 + l + 24 + fl.len());
    assert(b.subrange(pos, p1) =~= e.subrange(0, 4 + l));
    assert(e.subrange(0, 4 + l) =~= str32(t));
    assert(b.subrange(p1, p1 + 8) =~= e.subrange(4 + l, 12 + l));
    assert(e.subrange(4 + l, 12 + l) =~= u64_le(x.document_frequency));
    assert(b.subrange(p1 + 8, p1 + 16) =~= e.subrange(12 + l, 20 + l));
    assert(e.subrange(12 + l, 20 + l) =~= u64_le(x.score_nanos as u64));
    assert(b.subrange(p1 + 16, p1 + 24) =~= e.subrange(20 + l, 28 + l));
    assert(e.subrange(20 + l, 28 + l) =~= u64_le(x.fields.len() as u64));
    assert(b.subrange(p1 + 24, p1 + 24 + fl.len()) =~= e.subrange(28 + l, e.len() as int));
    assert(e.subrange(28 + l, e.len() as int) =~= fl);
    lemma_u64_le_round_trip(x.document_frequency);
    lemma_u64_le_round_trip(x.score_nanos as u64);
    lemma_u64_le_round_trip(x.fields.len() as u64);
    crate::document::lemma_i64_bits(0, x.score_nanos);
    assert forall|k: int| 0 <= k < x.fields.len() implies field_shape_fn()(#[trigger] x.fields[k]) by {
        assert(field_shape(x.fields[k]));
    }
}

#[verifier::spinoff_prover]
#[verifier::rlimit(40)]
fn read_fields(b: &[u8], p2: usize, end: usize, count: usize) -> (r: Result<(Vec<LexicalFieldContribution>, usize), RetrievalProofError>)
    requires
        p2 <= end <= b@.len(),
        count <= MAX_PROOF_COLLECTION_ITEMS,
    ensures
        r matches Ok((fields, cur)) ==> p2 <= cur <= end && fields@.len() == count
            && (forall|q: int| 0 <= q < count ==> field_shape(#[trigger] field_contributions_model(fields@)[q]))
            && b@.subrange(p2 as int, cur as int) == flat(field_contributions_model(fields@), field_encoder()),
        forall|e: Seq<FieldContributionModel>| #[trigger] items_fill(e, field_encoder(), field_shape_fn(), b@, p2 as int, end as int, count as int)
            ==> (r matches Ok((fields, cur)) && field_contributions_model(fields@) == e && cur == p2 + flat(e, field_encoder()).len()),
{
    let mut fields: Vec<LexicalFieldContribution> = Vec::new();
    let mut cur = p2;
    let mut k: usize = 0;
    proof {
        assert(b@.subrange(p2 as int, p2 as int) =~= Seq::<u8>::empty());
        assert(field_contributions_model(fields@) =~= Seq::<FieldContributionModel>::empty());
        assert forall|e: Seq<FieldContributionModel>| #[trigger] items_fill(e, field_encoder(), field_shape_fn(), b@, p2 as int, end as int, count as int) implies field_contributions_model(fields@) == e.take(0) by {
            assert(e.take(0) =~= Seq::<FieldContributionModel>::empty());
        }
    }
    while k < count
        invariant
            p2 <= cur <= end <= b@.len(),
            k <= count,
            count <= MAX_PROOF_COLLECTION_ITEMS,
            fields@.len() == k,
            forall|q: int| 0 <= q < k ==> field_shape(#[trigger] field_contributions_model(fields@)[q]),
            b@.subrange(p2 as int, cur as int) == flat(field_contributions_model(fields@), field_encoder()),
            forall|e: Seq<FieldContributionModel>| #[trigger] items_fill(e, field_encoder(), field_shape_fn(), b@, p2 as int, end as int, count as int)
                ==> field_contributions_model(fields@) == e.take(k as int),
        decreases count - k,
    {
        let (field, next) = match read_field_contribution(b, cur, end) {
            Ok(found) => found,
            Err(err) => {
                proof {
                    assert forall|e: Seq<FieldContributionModel>| #[trigger] items_fill(e, field_encoder(), field_shape_fn(), b@, p2 as int, end as int, count as int) implies false by {
                        lemma_items_step(e, field_encoder(), field_shape_fn(), b@, p2 as int, cur as int, end as int, count as int, k as int);
                    }
                }
                return Err(err);
            },
        };
        let ghost before = field_contributions_model(fields@);
        let ghost fm = field_contribution_model(field);
        fields.push(field);
        proof {
            assert(field_contributions_model(fields@) =~= before.push(fm));
            lemma_flat_push(before, fm, field_encoder());
            assert(b@.subrange(p2 as int, next as int) =~= b@.subrange(p2 as int, cur as int) + b@.subrange(cur as int, next as int));
            assert forall|e: Seq<FieldContributionModel>| #[trigger] items_fill(e, field_encoder(), field_shape_fn(), b@, p2 as int, end as int, count as int) implies field_contributions_model(fields@) == e.take(k + 1) by {
                lemma_items_step(e, field_encoder(), field_shape_fn(), b@, p2 as int, cur as int, end as int, count as int, k as int);
            }
        }
        cur = next;
        k = k + 1;
    }
    proof {
        assert forall|e: Seq<FieldContributionModel>| #[trigger] items_fill(e, field_encoder(), field_shape_fn(), b@, p2 as int, end as int, count as int)
            implies field_contributions_model(fields@) == e && cur == p2 + flat(e, field_encoder()).len() by {
            assert(e.take(count as int) =~= e);
        }
    }
    Ok((fields, cur))
}

#[verifier::spinoff_prover]
#[verifier::rlimit(40)]
fn read_term(b: &[u8], pos: usize, end: usize) -> (r: Result<(LexicalTermContribution, usize), RetrievalProofError>)
    requires
        pos <= end <= b@.len(),
    ensures
        r matches Ok((t, next)) ==> pos <= next <= end && b@.subrange(pos as int, next as int) == term_bytes(term_model(t))
            && term_shape(term_model(t)),
        forall|x: TermModel| #[trigger] item_at(x, term_encoder(), term_shape_fn(), b@, pos as int, end as int) ==> (
        r matches Ok((t, next)) && term_model(t) == x && next == pos + term_bytes(x).len()),
{
    proof {
        assert forall|x: TermModel| #[trigger] item_at(x, term_encoder(), term_shape_fn(), b@, pos as int, end as int) implies
            encode_utf8(x.token).len() <= u32::MAX && pos + 4 + encode_utf8(x.token).len() <= end
                && str32(encode_utf8(x.token)) == b@.subrange(pos as int, pos + 4 + encode_utf8(x.token).len()) by {
            lemma_term_parts(x, b@, pos as int, end as int);
        }
    }
    let (token, p1) = match read_text32(b, pos, end, "lexical term is not UTF-8") {
        Ok(found) => found,
        Err(e) => {
            return Err(e);
        },
    };
    if end - p1 < 16 {
        proof {
            assert forall|x: TermModel| #[trigger] item_at(x, term_encoder(), term_shape_fn(), b@, pos as int, end as int) implies false by {
                lemma_term_parts(x, b@, pos as int, end as int);
            }
        }
        return Err(RetrievalProofError::Invalid { reason: "truncated payload" });
    }
    let document_frequency = read_u64_le(b, p1);
    let score_bits = read_u64_le(b, p1 + 8);
    let (count, p2) = match read_count(b, p1 + 16, end) {
        Ok(found) => found,
        Err(e) => {
            proof {
                assert forall|x: TermModel| #[trigger] item_at(x, term_encoder(), term_shape_fn(), b@, pos as int, end as int) implies false by {
                    lemma_term_parts(x, b@, pos as int, end as int);
                }
            }
            return Err(e);
        },
    };
    proof {
        assert forall|x: TermModel| #[trigger] item_at(x, term_encoder(), term_shape_fn(), b@, pos as int, end as int) implies
            items_fill(x.fields, field_encoder(), field_shape_fn(), b@, p2 as int, end as int, count as int) by {
            lemma_term_parts(x, b@, pos as int, end as int);
        }
    }
    let (fields, cur) = match read_fields(b, p2, end, count) {
        Ok(found) => found,
        Err(err) => {
            return Err(err);
        },
    };
    let term = LexicalTermContribution {
        token,
        document_frequency,
        score_nanos: score_bits as i64,
        fields,
    };
    proof {
        crate::document::lemma_le_u64_bytes(b@.subrange(p1 as int, p1 + 8));
        crate::document::lemma_le_u64_bytes(b@.subrange(p1 + 8, p1 + 16));
        crate::document::lemma_le_u64_bytes(b@.subrange(p1 + 16, p1 + 24));
        crate::document::lemma_i64_bits(score_bits, 0);
        let tm = term_model(term);
        assert(b@.subrange(pos as int, cur as int) =~= b@.subrange(pos as int, p1 as int) + b@.subrange(p1 as int, p1 + 8)
            + b@.subrange(p1 + 8, p1 + 16) + b@.subrange(p1 + 16, p1 + 24) + b@.subrange(p2 as int, cur as int));
        assert(b@.subrange(pos as int, cur as int) =~= term_bytes(tm));
        assert forall|x: TermModel| #[trigger] item_at(x, term_encoder(), term_shape_fn(), b@, pos as int, end as int) implies
            tm == x && cur == pos + term_bytes(x).len() by {
            lemma_term_parts(x, b@, pos as int, end as int);
        }
    }
    Ok((term, cur))
}

#[verifier::spinoff_prover]
#[verifier::rlimit(40)]
fn read_terms(b: &[u8], p2: usize, end: usize, count: usize) -> (r: Result<(Vec<LexicalTermContribution>, usize), RetrievalProofError>)
    requires
        p2 <= end <= b@.len(),
        count <= MAX_PROOF_COLLECTION_ITEMS,
    ensures
        r matches Ok((terms, cur)) ==> p2 <= cur <= end && terms@.len() == count
            && (forall|q: int| 0 <= q < count ==> term_shape(#[trigger] terms_model(terms@)[q]))
            && b@.subrange(p2 as int, cur as int) == flat(terms_model(terms@), term_encoder()),
        forall|e: Seq<TermModel>| #[trigger] items_fill(e, term_encoder(), term_shape_fn(), b@, p2 as int, end as int, count as int)
            ==> (r matches Ok((terms, cur)) && terms_model(terms@) == e && cur == p2 + flat(e, term_encoder()).len()),
{
    let mut terms: Vec<LexicalTermContribution> = Vec::new();
    let mut cur = p2;
    let mut k: usize = 0;
    proof {
        assert(b@.subrange(p2 as int, p2 as int) =~= Seq::<u8>::empty());
        assert(terms_model(terms@) =~= Seq::<TermModel>::empty());
        assert forall|e: Seq<TermModel>| #[trigger] items_fill(e, term_encoder(), term_shape_fn(), b@, p2 as int, end as int, count as int) implies terms_model(terms@) == e.take(0) by {
            assert(e.take(0) =~= Seq::<TermModel>::empty());
        }
    }
    while k < count
        invariant
            p2 <= cur <= end <= b@.len(),
            k <= count,
            count <= MAX_PROOF_COLLECTION_ITEMS,
            terms@.len() == k,
            forall|q: int| 0 <= q < k ==> term_shape(#[trigger] terms_model(terms@)[q]),
            b@.subrange(p2 as int, cur as int) == flat(terms_model(terms@), term_encoder()),
            forall|e: Seq<TermModel>| #[trigger] items_fill(e, term_encoder(), term_shape_fn(), b@, p2 as int, end as int, count as int)
                ==> terms_model(terms@) == e.take(k as int),
        decreases count - k,
    {
        let (term, next) = match read_term(b, cur, end) {
            Ok(found) => found,
            Err(err) => {
                proof {
                    assert forall|e: Seq<TermModel>| #[trigger] items_fill(e, term_encoder(), term_shape_fn(), b@, p2 as int, end as int, count as int) implies false by {
                        lemma_items_step(e, term_encoder(), term_shape_fn(), b@, p2 as int, cur as int, end as int, count as int, k as int);
                    }
                }
                return Err(err);
            },
        };
        let ghost before = terms_model(terms@);
        let ghost tm = term_model(term);
        terms.push(term);
        proof {
            assert(terms_model(terms@) =~= before.push(tm));
            lemma_flat_push(before, tm, term_encoder());
            assert(b@.subrange(p2 as int, next as int) =~= b@.subrange(p2 as int, cur as int) + b@.subrange(cur as int, next as int));
            assert forall|e: Seq<TermModel>| #[trigger] items_fill(e, term_encoder(), term_shape_fn(), b@, p2 as int, end as int, count as int) implies terms_model(terms@) == e.take(k + 1) by {
                lemma_items_step(e, term_encoder(), term_shape_fn(), b@, p2 as int, cur as int, end as int, count as int, k as int);
            }
        }
        cur = next;
        k = k + 1;
    }
    proof {
        assert forall|e: Seq<TermModel>| #[trigger] items_fill(e, term_encoder(), term_shape_fn(), b@, p2 as int, end as int, count as int)
            implies terms_model(terms@) == e && cur == p2 + flat(e, term_encoder()).len() by {
            assert(e.take(count as int) =~= e);
        }
    }
    Ok((terms, cur))
}

/// A match that decoding can produce.
pub open spec fn lex_match_shape(m: LexMatchModel) -> bool {
    &&& m.key.len() <= u32::MAX
    &&& m.terms.len() <= MAX_PROOF_COLLECTION_ITEMS
    &&& forall|j: int| 0 <= j < m.terms.len() ==> term_shape(#[trigger] m.terms[j])
}

pub open spec fn lex_match_shape_fn() -> spec_fn(LexMatchModel) -> bool {
    |m: LexMatchModel| lex_match_shape(m)
}

proof fn lemma_lex_match_parts(x: LexMatchModel, b: Seq<u8>, pos: int, end: int)
    requires
        0 <= pos <= end <= b.len(),
        item_at(x, lex_match_encoder(), lex_match_shape_fn(), b, pos, end),
    ensures
        ({
            let l = x.key.len() as int;
            let p1 = pos + 4 + l;
            &&& x.key.len() <= u32::MAX
            &&& p1 + 16 <= end
            &&& str32(x.key) == b.subrange(pos, p1)
            &&& le_u64(b.subrange(p1, p1 + 8)) as i64 == x.score_nanos
            &&& le_u64(b.subrange(p1 + 8, p1 + 16)) == x.terms.len()
            &&& x.terms.len() <= MAX_PROOF_COLLECTION_ITEMS
            &&& items_fill(x.terms, term_encoder(), term_shape_fn(), b, p1 + 16, end, x.terms.len() as int)
            &&& pos + lex_match_bytes(x).len() == p1 + 16 + flat(x.terms, term_encoder()).len()
        }),
{
    let e = lex_match_bytes(x);
    assert(lex_match_encoder()(x) == e);
    assert(lex_match_shape(x));
    let l = x.key.len() as int;
    let p1 = pos + 4 + l;
    let fl = flat(x.terms, term_encoder());
    assert(e.len() == 4 + l + 16 + fl.len());
    assert(b.subrange(pos, p1) =~= e.subrange(0, 4 + l));
    assert(e.subrange(0, 4 + l) =~= str32(x.key));
    assert(b.subrange(p1, p1 + 8) =~= e.subrange(4 + l, 12 + l));
    assert(e.subrange(4 + l, 12 + l) =~= u64_le(x.score_nanos as u64));
    assert(b.subrange(p1 + 8, p1 + 16) =~= e.subrange(12 + l, 20 + l));
    assert(e.subrange(12 + l, 20 + l) =~= u64_le(x.terms.len() as u64));
    assert(b.subrange(p1 + 16, p1 + 16 + fl.len()) =~= e.subrange(20 + l, e.len() as int));
    assert(e.subrange(20 + l, e.len() as int) =~= fl);
    lemma_u64_le_round_trip(x.score_nanos as u64);
    lemma_u64_le_round_trip(x.terms.len() as u64);
    crate::document::lemma_i64_bits(0, x.score_nanos);
    assert forall|k: int| 0 <= k < x.terms.len() implies term_shape_fn()(#[trigger] x.terms[k]) by {
        assert(term_shape(x.terms[k]));
    }
}

#[verifier::spinoff_prover]
#[verifier::rlimit(40)]
fn read_lex_match(b: &[u8], pos: usize, end: usize) -> (r: Result<(LexicalMatch, usize), RetrievalProofError>)
    requires
        pos <= end <= b@.len(),
    ensures
        r matches Ok((m, next)) ==> pos <= next <= end && b@.subrange(pos as int, next as int) == lex_match_bytes(lex_match_model(m))
            && lex_match_shape(lex_match_model(m)),
        forall|x: LexMatchModel| #[trigger] item_at(x, lex_match_encoder(), lex_match_shape_fn(), b@, pos as int, end as int) ==> (
        r matches Ok((m, next)) && lex_match_model(m) == x && next == pos + lex_match_bytes(x).len()),
{
    proof {
        assert forall|x: LexMatchModel| #[trigger] item_at(x, lex_match_encoder(), lex_match_shape_fn(), b@, pos as int, end as int) implies
            x.key.len() <= u32::MAX && pos + 4 + x.key.len() <= end && str32(x.key) == b@.subrange(pos as int, pos + 4 + x.key.len()) by {
            lemma_lex_match_parts(x, b@, pos as int, end as int);
        }
    }
    let (ks, ke) = match read_str32(b, pos, end) {
        Ok(found) => found,
        Err(e) => {
            return Err(e);
        },
    };
    let key = copy_range(b, ks, ke);
    if end - ke < 16 {
        proof {
            assert forall|x: LexMatchModel| #[trigger] item_at(x, lex_match_encoder(), lex_match_shape_fn(), b@, pos as int, end as int) implies false by {
                lemma_lex_match_parts(x, b@, pos as int, end as int);
            }
        }
        return Err(RetrievalProofError::Invalid { reason: "truncated payload" });
    }
    let score_bits = read_u64_le(b, ke);
    let (count, p2) = match read_count(b, ke + 8, end) {
        Ok(found) => found,
        Err(e) => {
            proof {
                assert forall|x: LexMatchModel| #[trigger] item_at(x, lex_match_encoder(), lex_match_shape_fn(), b@, pos as int, end as int) implies false by {
                    lemma_lex_match_parts(x, b@, pos as int, end as int);
                }
            }
            return Err(e);
        },
    };
    proof {
        assert forall|x: LexMatchModel| #[trigger] item_at(x, lex_match_encoder(), lex_match_shape_fn(), b@, pos as int, end as int) implies
            items_fill(x.terms, term_encoder(), term_shape_fn(), b@, p2 as int, end as int, count as int) by {
            lemma_lex_match_parts(x, b@, pos as int, end as int);
        }
    }
    let (terms, cur) = match read_terms(b, p2, end, count) {
        Ok(found) => found,
        Err(err) => {
            return Err(err);
        },
    };
    let m = LexicalMatch { key, score_nanos: score_bits as i64, terms };
    proof {
        crate::document::lemma_le_u64_bytes(b@.subrange(ke as int, ke + 8));
        crate::document::lemma_le_u64_bytes(b@.subrange(ke + 8, ke + 16));
        crate::document::lemma_i64_bits(score_bits, 0);
        let mm = lex_match_model(m);
        assert(b@.subrange(pos as int, cur as int) =~= b@.subrange(pos as int, ke as int) + b@.subrange(ke as int, ke + 8)
            + b@.subrange(ke + 8, ke + 16) + b@.subrange(p2 as int, cur as int));
        assert(b@.subrange(pos as int, cur as int) =~= lex_match_bytes(mm));
        assert forall|x: LexMatchModel| #[trigger] item_at(x, lex_match_encoder(), lex_match_shape_fn(), b@, pos as int, end as int) implies
            mm == x && cur == pos + lex_match_bytes(x).len() by {
            lemma_lex_match_parts(x, b@, pos as int, end as int);
            lemma_str32_payload(b@, pos as int, x.key);
        }
    }
    Ok((m, cur))
}

/// A token that decoding can produce.
pub open spec fn token_shape(t: Seq<char>) -> bool {
    encode_utf8(t).len() <= u32::MAX
}

pub open spec fn token_shape_fn() -> spec_fn(Seq<char>) -> bool {
    |t: Seq<char>| token_shape(t)
}

#[verifier::spinoff_prover]
#[verifier::rlimit(40)]
fn read_tokens(b: &[u8], p2: usize, end: usize, count: usize) -> (r: Result<(Vec<String>, usize), RetrievalProofError>)
    requires
        p2 <= end <= b@.len(),
        count <= MAX_PROOF_COLLECTION_ITEMS,
    ensures
        r matches Ok((tokens, cur)) ==> p2 <= cur <= end && tokens@.len() == count
            && (forall|q: int| 0 <= q < count ==> token_shape(#[trigger] strings_chars(tokens@)[q]))
            && b@.subrange(p2 as int, cur as int) == flat(strings_chars(tokens@), token_encoder()),
        forall|e: Seq<Seq<char>>| #[trigger] items_fill(e, token_encoder(), token_shape_fn(), b@, p2 as int, end as int, count as int)
            ==> (r matches Ok((tokens, cur)) && strings_chars(tokens@) == e && cur == p2 + flat(e, token_encoder()).len()),
{
    let mut tokens: Vec<String> = Vec::new();
    let mut cur = p2;
    let mut k: usize = 0;
    proof {
        assert(b@.subrange(p2 as int, p2 as int) =~= Seq::<u8>::empty());
        assert(strings_chars(tokens@) =~= Seq::<Seq<char>>::empty());
        assert forall|e: Seq<Seq<char>>| #[trigger] items_fill(e, token_encoder(), token_shape_fn(), b@, p2 as int, end as int, count as int) implies strings_chars(tokens@) == e.take(0) by {
            assert(e.take(0) =~= Seq::<Seq<char>>::empty());
        }
    }
    while k < count
        invariant
            p2 <= cur <= end <= b@.len(),
            k <= count,
            count <= MAX_PROOF_COLLECTION_ITEMS,
            tokens@.len() == k,
            forall|q: int| 0 <= q < k ==> token_shape(#[trigger] strings_chars(tokens@)[q]),
            b@.subrange(p2 as int, cur as int) == flat(strings_chars(tokens@), token_encoder()),
            forall|e: Seq<Seq<char>>| #[trigger] items_fill(e, token_encoder(), token_shape_fn(), b@, p2 as int, end as int, count as int)
                ==> strings_chars(tokens@) == e.take(k as int),
        decreases count - k,
    {
        proof {
            assert forall|e: Seq<Seq<char>>| #[trigger] items_fill(e, token_encoder(), token_shape_fn(), b@, p2 as int, end as int, count as int) implies
                encode_utf8(e[k as int]).len() <= u32::MAX && cur + 4 + encode_utf8(e[k as int]).len() <= end
                && str32(encode_utf8(e[k as int])) == b@.subrange(cur as int, cur + 4 + encode_utf8(e[k as int]).len()) by {
                lemma_items_step(e, token_encoder(), token_shape_fn(), b@, p2 as int, cur as int, end as int, count as int, k as int);
                assert(token_encoder()(e[k as int]) == str32(encode_utf8(e[k as int])));
                assert(token_shape(e[k as int]));
            }
        }
        let (token, next) = match read_text32(b, cur, end, "lexical token is not UTF-8") {
            Ok(found) => found,
            Err(err) => {
                return Err(err);
            },
        };
        let ghost before = strings_chars(tokens@);
        let ghost tc = token@;
        tokens.push(token);
        proof {
            assert(strings_chars(tokens@) =~= before.push(tc));
            lemma_flat_push(before, tc, token_encoder());
            assert(token_encoder()(tc) == str32(encode_utf8(tc)));
            assert(b@.subrange(p2 as int, next as int) =~= b@.subrange(p2 as int, cur as int) + b@.subrange(cur as int, next as int));
            assert forall|e: Seq<Seq<char>>| #[trigger] items_fill(e, token_encoder(), token_shape_fn(), b@, p2 as int, end as int, count as int) implies strings_chars(tokens@) == e.take(k + 1) by {
                lemma_items_step(e, token_encoder(), token_shape_fn(), b@, p2 as int, cur as int, end as int, count as int, k as int);
                assert(token_encoder()(e[k as int]) == str32(encode_utf8(e[k as int])));
            }
        }
        cur = next;
        k = k + 1;
    }
    proof {
        assert forall|e: Seq<Seq<char>>| #[trigger] items_fill(e, token_encoder(), token_shape_fn(), b@, p2 as int, end as int, count as int)
            implies strings_chars(tokens@) == e && cur == p2 + flat(e, token_encoder()).len() by {
            assert(e.take(count as int) =~= e);
        }
    }
    Ok((tokens, cur))
}

/// A token list that decoding can produce.
pub open spec fn tokens_shape(ts: Seq<Seq<char>>) -> bool {
    ts.len() <= MAX_PROOF_COLLECTION_ITEMS && forall|i: int| 0 <= i < ts.len() ==> token_shape(#[trigger] ts[i])
}

/// An outcome that decoding can produce.
pub open spec fn lex_outcome_shape(o: LexOutcomeModel) -> bool {
    &&& tokens_shape(outcome_query_tokens(o))
    &&& o matches LexOutcomeModel::Matches { matches, .. } ==> {
        &&& matches.len() <= MAX_PROOF_COLLECTION_ITEMS
        &&& forall|i: int| 0 <= i < matches.len() ==> lex_match_shape(#[trigger] matches[i])
    }
}

/// `o` is a decodable outcome whose canonical bytes are `region`.
#[verifier::opaque]
pub open spec fn lex_outcome_encodes(o: LexOutcomeModel, region: Seq<u8>) -> bool {
    lex_outcome_shape(o) && lex_outcome_bytes(o) == region
}

proof fn lemma_lex_outcome_tag(x: LexOutcomeModel, b: Seq<u8>, s: int, end: int)
    requires
        0 <= s <= end <= b.len(),
        lex_outcome_encodes(x, b.subrange(s, end)),
    ensures
        end > s,
        x is Matches <==> b[s] == 1u8,
        x is Abstained <==> b[s] == 2u8,
{
    reveal(lex_outcome_encodes);
    let e = lex_outcome_bytes(x);
    match x {
        LexOutcomeModel::Matches { .. } => {
            assert(e[0] == 1u8);
        },
        LexOutcomeModel::Abstained { .. } => {
            assert(e[0] == 2u8);
        },
    }
    assert(e.len() > 0);
    assert(b.subrange(s, end)[0] == b[s]);
}

pub(crate) proof fn lemma_lex_outcome_encodes_intro(x: LexOutcomeModel, region: Seq<u8>)
    requires
        lex_outcome_shape(x),
        lex_outcome_bytes(x) == region,
    ensures
        lex_outcome_encodes(x, region),
{
    reveal(lex_outcome_encodes);
}

#[verifier::spinoff_prover]
#[verifier::rlimit(40)]
proof fn lemma_lex_matches_parts(x: LexOutcomeModel, b: Seq<u8>, s: int, end: int)
    requires
        0 <= s <= end <= b.len(),
        lex_outcome_encodes(x, b.subrange(s, end)),
        x is Matches,
    ensures
        ({
            let qt = x->Matches_query_tokens;
            let ms = x->matches;
            let pt = s + 25 + flat(qt, token_encoder()).len();
            &&& end - s >= 25
            &&& b[s] == 1u8
            &&& le_u64(b.subrange(s + 1, s + 9)) == x->Matches_scanned_documents
            &&& le_u64(b.subrange(s + 9, s + 17)) == x->Matches_matched_documents
            &&& le_u64(b.subrange(s + 17, s + 25)) == qt.len()
            &&& qt.len() <= MAX_PROOF_COLLECTION_ITEMS
            &&& items_fill(qt, token_encoder(), token_shape_fn(), b, s + 25, end, qt.len() as int)
            &&& pt + 8 <= end
            &&& le_u64(b.subrange(pt, pt + 8)) == ms.len()
            &&& ms.len() <= MAX_PROOF_COLLECTION_ITEMS
            &&& items_fill(ms, lex_match_encoder(), lex_match_shape_fn(), b, pt + 8, end, ms.len() as int)
            &&& end == pt + 8 + flat(ms, lex_match_encoder()).len()
        }),
{
    reveal(lex_outcome_encodes);
    let qt = x->Matches_query_tokens;
    let ms = x->matches;
    let e = lex_outcome_bytes(x);
    let ft = flat(qt, token_encoder());
    let fm = flat(ms, lex_match_encoder());
    let pt = 25 + ft.len() as int;
    assert(e.len() == 33 + ft.len() + fm.len());
    assert(b.subrange(s, end) == e);
    assert(b[s] == e[0]);
    assert(b.subrange(s + 1, s + 9) =~= e.subrange(1, 9));
    assert(e.subrange(1, 9) =~= u64_le(x->Matches_scanned_documents));
    assert(b.subrange(s + 9, s + 17) =~= e.subrange(9, 17));
    assert(e.subrange(9, 17) =~= u64_le(x->Matches_matched_documents));
    assert(b.subrange(s + 17, s + 25) =~= e.subrange(17, 25));
    assert(e.subrange(17, 25) =~= u64_le(qt.len() as u64));
    assert(b.subrange(s + 25, s + 25 + ft.len()) =~= e.subrange(25, pt));
    assert(e.subrange(25, pt) =~= ft);
    assert(b.subrange(s + pt, s + pt + 8) =~= e.subrange(pt, pt + 8));
    assert(e.subrange(pt, pt + 8) =~= u64_le(ms.len() as u64));
    assert(b.subrange(s + pt + 8, s + pt + 8 + fm.len()) =~= e.subrange(pt + 8, e.len() as int));
    assert(e.subrange(pt + 8, e.len() as int) =~= fm);
    lemma_u64_le_round_trip(x->Matches_scanned_documents);
    lemma_u64_le_round_trip(x->Matches_matched_documents);
    lemma_u64_le_round_trip(qt.len() as u64);
    lemma_u64_le_round_trip(ms.len() as u64);
    assert forall|i: int| 0 <= i < qt.len() implies token_shape_fn()(#[trigger] qt[i]) by {
        assert(token_shape(qt[i]));
    }
    assert forall|i: int| 0 <= i < ms.len() implies lex_match_shape_fn()(#[trigger] ms[i]) by {
        assert(lex_match_shape(ms[i]));
    }
}

proof fn lemma_lex_abstained_parts(x: LexOutcomeModel, b: Seq<u8>, s: int, end: int)
    requires
        0 <= s <= end <= b.len(),
        lex_outcome_encodes(x, b.subrange(s, end)),
        x is Abstained,
    ensures
        ({
            let qt = x->Abstained_query_tokens;
            &&& end - s >= 18
            &&& b[s] == 2u8
            &&& b[s + 1] == 1u8
            &&& le_u64(b.subrange(s + 2, s + 10)) == x->Abstained_scanned_documents
            &&& le_u64(b.subrange(s + 10, s + 18)) == qt.len()
            &&& qt.len() <= MAX_PROOF_COLLECTION_ITEMS
            &&& items_fill(qt, token_encoder(), token_shape_fn(), b, s + 18, end, qt.len() as int)
            &&& end == s + 18 + flat(qt, token_encoder()).len()
        }),
{
    reveal(lex_outcome_encodes);
    let qt = x->Abstained_query_tokens;
    let e = lex_outcome_bytes(x);
    let ft = flat(qt, token_encoder());
    assert(e.len() == 18 + ft.len());
    assert(b.subrange(s, end) == e);
    assert(b[s] == e[0]);
    assert(b[s + 1] == e[1]);
    assert(b.subrange(s + 2, s + 10) =~= e.subrange(2, 10));
    assert(e.subrange(2, 10) =~= u64_le(x->Abstained_scanned_documents));
    assert(b.subrange(s + 10, s + 18) =~= e.subrange(10, 18));
    assert(e.subrange(10, 18) =~= u64_le(qt.len() as u64));
    assert(b.subrange(s + 18, s + 18 + ft.len()) =~= e.subrange(18, e.len() as int));
    assert(e.subrange(18, e.len() as int) =~= ft);
    lemma_u64_le_round_trip(x->Abstained_scanned_documents);
    lemma_u64_le_round_trip(qt.len() as u64);
    assert forall|i: int| 0 <= i < qt.len() implies token_shape_fn()(#[trigger] qt[i]) by {
        assert(token_shape(qt[i]));
    }
}

#[verifier::spinoff_prover]
#[verifier::rlimit(40)]
fn read_lex_matches(b: &[u8], p2: usize, end: usize, match_count: usize) -> (r: Result<(Vec<LexicalMatch>, usize), RetrievalProofError>)
    requires
        p2 <= end <= b@.len(),
        match_count <= MAX_PROOF_COLLECTION_ITEMS,
    ensures
        r matches Ok((matches, cur)) ==> p2 <= cur <= end && matches@.len() == match_count
            && (forall|q: int| 0 <= q < match_count ==> lex_match_shape(#[trigger] lex_matches_model(matches@)[q]))
            && b@.subrange(p2 as int, cur as int) == flat(lex_matches_model(matches@), lex_match_encoder()),
        forall|e: Seq<LexMatchModel>| #[trigger] items_fill(e, lex_match_encoder(), lex_match_shape_fn(), b@, p2 as int, end as int, match_count as int)
            ==> (r matches Ok((matches, cur)) && lex_matches_model(matches@) == e && cur == p2 + flat(e, lex_match_encoder()).len()),
{
    let mut matches: Vec<LexicalMatch> = Vec::new();
    let mut cur = p2;
    let mut i: usize = 0;
    proof {
        assert(b@.subrange(p2 as int, p2 as int) =~= Seq::<u8>::empty());
        assert(lex_matches_model(matches@) =~= Seq::<LexMatchModel>::empty());
        assert forall|e: Seq<LexMatchModel>| #[trigger] items_fill(e, lex_match_encoder(), lex_match_shape_fn(), b@, p2 as int, end as int, match_count as int) implies lex_matches_model(matches@) == e.take(0) by {
            assert(e.take(0) =~= Seq::<LexMatchModel>::empty());
        }
    }
    while i < match_count
        invariant
            p2 <= cur <= end <= b@.len(),
            i <= match_count,
            match_count <= MAX_PROOF_COLLECTION_ITEMS,
            matches@.len() == i,
            forall|q: int| 0 <= q < i ==> lex_match_shape(#[trigger] lex_matches_model(matches@)[q]),
            b@.subrange(p2 as int, cur as int) == flat(lex_matches_model(matches@), lex_match_encoder()),
            forall|e: Seq<LexMatchModel>| #[trigger] items_fill(e, lex_match_encoder(), lex_match_shape_fn(), b@, p2 as int, end as int, match_count as int)
                ==> lex_matches_model(matches@) == e.take(i as int),
        decreases match_count - i,
    {
        let (m, next) = match read_lex_match(b, cur, end) {
            Ok(found) => found,
            Err(err) => {
                proof {
                    assert forall|e: Seq<LexMatchModel>| #[trigger] items_fill(e, lex_match_encoder(), lex_match_shape_fn(), b@, p2 as int, end as int, match_count as int) implies false by {
                        lemma_items_step(e, lex_match_encoder(), lex_match_shape_fn(), b@, p2 as int, cur as int, end as int, match_count as int, i as int);
                    }
                }
                return Err(err);
            },
        };
        let ghost before = lex_matches_model(matches@);
        let ghost mm = lex_match_model(m);
        matches.push(m);
        proof {
            assert(lex_matches_model(matches@) =~= before.push(mm));
            lemma_flat_push(before, mm, lex_match_encoder());
            assert(b@.subrange(p2 as int, next as int) =~= b@.subrange(p2 as int, cur as int) + b@.subrange(cur as int, next as int));
            assert forall|e: Seq<LexMatchModel>| #[trigger] items_fill(e, lex_match_encoder(), lex_match_shape_fn(), b@, p2 as int, end as int, match_count as int) implies lex_matches_model(matches@) == e.take(i + 1) by {
                lemma_items_step(e, lex_match_encoder(), lex_match_shape_fn(), b@, p2 as int, cur as int, end as int, match_count as int, i as int);
            }
        }
        cur = next;
        i = i + 1;
    }
    proof {
        assert forall|e: Seq<LexMatchModel>| #[trigger] items_fill(e, lex_match_encoder(), lex_match_shape_fn(), b@, p2 as int, end as int, match_count as int)
            implies lex_matches_model(matches@) == e && cur == p2 + flat(e, lex_match_encoder()).len() by {
            assert(e.take(match_count as int) =~= e);
        }
    }
    Ok((matches, cur))
}

#[verifier::spinoff_prover]
#[verifier::rlimit(40)]
fn decode_lex_matches_outcome(b: &[u8], s: usize, end: usize) -> (r: Result<LexicalOutcome, RetrievalProofError>)
    requires
        s <= end <= b@.len(),
        end - s >= 1,
        b@[s as int] == 1,
    ensures
        r matches Ok(o) ==> lex_outcome_encodes(lex_outcome_model(o), b@.subrange(s as int, end as int)),
        forall|m: LexOutcomeModel| #[trigger] lex_outcome_encodes(m, b@.subrange(s as int, end as int)) ==> (
        r matches Ok(o) && lex_outcome_model(o) == m),
{
    let ghost region = b@.subrange(s as int, end as int);
    proof {
        assert forall|m: LexOutcomeModel| #[trigger] lex_outcome_encodes(m, region) implies m is Matches by {
            lemma_lex_outcome_tag(m, b@, s as int, end as int);
        }
    }
    if end - s < 25 {
        proof {
            assert forall|m: LexOutcomeModel| #[trigger] lex_outcome_encodes(m, region) implies false by {
                lemma_lex_matches_parts(m, b@, s as int, end as int);
            }
        }
        return Err(RetrievalProofError::Invalid { reason: "truncated payload" });
    }
    let scanned = read_u64_le(b, s + 1);
    let matched = read_u64_le(b, s + 9);
    let (token_count, p0) = match read_count(b, s + 17, end) {
        Ok(found) => found,
        Err(e) => {
            proof {
                assert forall|m: LexOutcomeModel| #[trigger] lex_outcome_encodes(m, region) implies false by {
                    lemma_lex_matches_parts(m, b@, s as int, end as int);
                }
            }
            return Err(e);
        },
    };
    proof {
        assert forall|m: LexOutcomeModel| #[trigger] lex_outcome_encodes(m, region) implies
            items_fill(m->Matches_query_tokens, token_encoder(), token_shape_fn(), b@, p0 as int, end as int, token_count as int) by {
            lemma_lex_matches_parts(m, b@, s as int, end as int);
        }
    }
    let (query_tokens, p1) = match read_tokens(b, p0, end, token_count) {
        Ok(found) => found,
        Err(e) => {
            return Err(e);
        },
    };
    let (match_count, p2) = match read_count(b, p1, end) {
        Ok(found) => found,
        Err(e) => {
            proof {
                assert forall|m: LexOutcomeModel| #[trigger] lex_outcome_encodes(m, region) implies false by {
                    lemma_lex_matches_parts(m, b@, s as int, end as int);
                }
            }
            return Err(e);
        },
    };
    proof {
        assert forall|m: LexOutcomeModel| #[trigger] lex_outcome_encodes(m, region) implies
            items_fill(m->matches, lex_match_encoder(), lex_match_shape_fn(), b@, p2 as int, end as int, match_count as int) by {
            lemma_lex_matches_parts(m, b@, s as int, end as int);
        }
    }
    let (matches, cur) = match read_lex_matches(b, p2, end, match_count) {
        Ok(found) => found,
        Err(err) => {
            return Err(err);
        },
    };
    if cur != end {
        proof {
            assert forall|m: LexOutcomeModel| #[trigger] lex_outcome_encodes(m, region) implies false by {
                lemma_lex_matches_parts(m, b@, s as int, end as int);
            }
        }
        return Err(RetrievalProofError::Invalid { reason: "trailing payload bytes" });
    }
    let outcome = LexicalOutcome::Matches {
        matches,
        scanned_documents: scanned,
        matched_documents: matched,
        query_tokens,
    };
    proof {
        crate::document::lemma_le_u64_bytes(b@.subrange(s + 1, s + 9));
        crate::document::lemma_le_u64_bytes(b@.subrange(s + 9, s + 17));
        crate::document::lemma_le_u64_bytes(b@.subrange(s + 17, s + 25));
        crate::document::lemma_le_u64_bytes(b@.subrange(p1 as int, p1 + 8));
        let o = lex_outcome_model(outcome);
        assert(b@[s as int] == 1u8);
        assert(region =~= seq![1u8] + b@.subrange(s + 1, s + 9) + b@.subrange(s + 9, s + 17) + b@.subrange(s + 17, s + 25)
            + b@.subrange(p0 as int, p1 as int) + b@.subrange(p1 as int, p1 + 8) + b@.subrange(p2 as int, cur as int));
        assert(region =~= lex_outcome_bytes(o));
        lemma_lex_outcome_encodes_intro(o, region);
        assert forall|m: LexOutcomeModel| #[trigger] lex_outcome_encodes(m, region) implies o == m by {
            lemma_lex_matches_parts(m, b@, s as int, end as int);
            assert(m->matches.take(match_count as int) =~= m->matches);
        }
    }
    Ok(outcome)
}

#[verifier::spinoff_prover]
#[verifier::rlimit(40)]
fn decode_lex_abstained_outcome(b: &[u8], s: usize, end: usize) -> (r: Result<LexicalOutcome, RetrievalProofError>)
    requires
        s <= end <= b@.len(),
        end - s >= 1,
        b@[s as int] == 2,
    ensures
        r matches Ok(o) ==> lex_outcome_encodes(lex_outcome_model(o), b@.subrange(s as int, end as int)),
        forall|m: LexOutcomeModel| #[trigger] lex_outcome_encodes(m, b@.subrange(s as int, end as int)) ==> (
        r matches Ok(o) && lex_outcome_model(o) == m),
{
    let ghost region = b@.subrange(s as int, end as int);
    proof {
        assert forall|m: LexOutcomeModel| #[trigger] lex_outcome_encodes(m, region) implies m is Abstained by {
            lemma_lex_outcome_tag(m, b@, s as int, end as int);
        }
    }
    if end - s < 2 {
        proof {
            assert forall|m: LexOutcomeModel| #[trigger] lex_outcome_encodes(m, region) implies false by {
                lemma_lex_abstained_parts(m, b@, s as int, end as int);
            }
        }
        return Err(RetrievalProofError::Invalid { reason: "truncated payload" });
    }
    if b[s + 1] != 1 {
        proof {
            assert forall|m: LexOutcomeModel| #[trigger] lex_outcome_encodes(m, region) implies false by {
                lemma_lex_abstained_parts(m, b@, s as int, end as int);
            }
        }
        return Err(RetrievalProofError::Invalid { reason: "unknown lexical abstention reason" });
    }
    if end - s < 10 {
        proof {
            assert forall|m: LexOutcomeModel| #[trigger] lex_outcome_encodes(m, region) implies false by {
                lemma_lex_abstained_parts(m, b@, s as int, end as int);
            }
        }
        return Err(RetrievalProofError::Invalid { reason: "truncated payload" });
    }
    let scanned = read_u64_le(b, s + 2);
    let (token_count, p0) = match read_count(b, s + 10, end) {
        Ok(found) => found,
        Err(e) => {
            proof {
                assert forall|m: LexOutcomeModel| #[trigger] lex_outcome_encodes(m, region) implies false by {
                    lemma_lex_abstained_parts(m, b@, s as int, end as int);
                }
            }
            return Err(e);
        },
    };
    proof {
        assert forall|m: LexOutcomeModel| #[trigger] lex_outcome_encodes(m, region) implies
            items_fill(m->Abstained_query_tokens, token_encoder(), token_shape_fn(), b@, p0 as int, end as int, token_count as int) by {
            lemma_lex_abstained_parts(m, b@, s as int, end as int);
        }
    }
    let (query_tokens, cur) = match read_tokens(b, p0, end, token_count) {
        Ok(found) => found,
        Err(e) => {
            return Err(e);
        },
    };
    if cur != end {
        proof {
            assert forall|m: LexOutcomeModel| #[trigger] lex_outcome_encodes(m, region) implies false by {
                lemma_lex_abstained_parts(m, b@, s as int, end as int);
            }
        }
        return Err(RetrievalProofError::Invalid { reason: "trailing payload bytes" });
    }
    let outcome = LexicalOutcome::Abstained(
        LexicalAbstention { reason: LexicalAbstentionReason::NoCandidates, scanned_documents: scanned, query_tokens },
    );
    proof {
        crate::document::lemma_le_u64_bytes(b@.subrange(s + 2, s + 10));
        crate::document::lemma_le_u64_bytes(b@.subrange(s + 10, s + 18));
        let o = lex_outcome_model(outcome);
        assert(region =~= seq![2u8, 1u8] + b@.subrange(s + 2, s + 10) + b@.subrange(s + 10, s + 18)
            + b@.subrange(p0 as int, cur as int));
        assert(region =~= lex_outcome_bytes(o));
        lemma_lex_outcome_encodes_intro(o, region);
        assert forall|m: LexOutcomeModel| #[trigger] lex_outcome_encodes(m, region) implies o == m by {
            lemma_lex_abstained_parts(m, b@, s as int, end as int);
        }
    }
    Ok(outcome)
}

/// Decodes the canonical bytes of a lexical outcome from `b[s..end]`.
pub(crate) fn decode_lexical_outcome(b: &[u8], s: usize, end: usize) -> (r: Result<LexicalOutcome, RetrievalProofError>)
    requires
        s <= end <= b@.len(),
    ensures
        r matches Ok(o) ==> lex_outcome_encodes(lex_outcome_model(o), b@.subrange(s as int, end as int)),
        forall|m: LexOutcomeModel| #[trigger] lex_outcome_encodes(m, b@.subrange(s as int, end as int)) ==> (
        r matches Ok(o) && lex_outcome_model(o) == m),
{
    let ghost region = b@.subrange(s as int, end as int);
    if s == end {
        proof {
            assert forall|m: LexOutcomeModel| #[trigger] lex_outcome_encodes(m, region) implies false by {
                lemma_lex_outcome_tag(m, b@, s as int, end as int);
            }
        }
        return Err(RetrievalProofError::Invalid { reason: "truncated payload" });
    }
    let tag = b[s];
    if tag == 1 {
        decode_lex_matches_outcome(b, s, end)
    } else if tag == 2 {
        decode_lex_abstained_outcome(b, s, end)
    } else {
        proof {
            assert forall|m: LexOutcomeModel| #[trigger] lex_outcome_encodes(m, region) implies false by {
                lemma_lex_outcome_tag(m, b@, s as int, end as int);
            }
        }
        Err(RetrievalProofError::Invalid { reason: "unknown lexical outcome tag" })
    }
}

// ---------------------------------------------------------------------------
// Decoding lexical requests.

/// A request that decoding can produce: a canonical UTF-8 index name and a
/// query whose length fits 32 bits.
pub open spec fn lex_request_shape(m: LexRequestModel) -> bool {
    &&& valid_utf8(m.index)
    &&& is_canonical_space_name(m.index)
    &&& encode_utf8(m.query).len() <= u32::MAX
}

/// `m` is a decodable request whose canonical bytes are `region`.
pub open spec fn lex_request_encodes(m: LexRequestModel, region: Seq<u8>) -> bool {
    lex_request_shape(m) && lex_request_bytes(m) == region
}

proof fn lemma_lex_request_parts(m: LexRequestModel, b: Seq<u8>, s: int, end: int)
    requires
        0 <= s <= end <= b.len(),
        lex_request_encodes(m, b.subrange(s, end)),
    ensures
        ({
            let p1 = s + 2 + m.index.len();
            let q = encode_utf8(m.query);
            &&& p1 + 4 + q.len() + 8 == end
            &&& name_field(m.index) == b.subrange(s, p1)
            &&& str32(q) == b.subrange(p1, p1 + 4 + q.len())
            &&& le_u64(b.subrange(end - 8, end)) == m.limit
        }),
{
    let e = lex_request_bytes(m);
    let n = m.index.len() as int;
    let q = encode_utf8(m.query);
    let p1 = 2 + n;
    assert(e.len() == p1 + 4 + q.len() + 8);
    assert(b.subrange(s, s + p1) =~= e.subrange(0, p1));
    assert(e.subrange(0, p1) =~= name_field(m.index));
    assert(b.subrange(s + p1, s + p1 + 4 + q.len()) =~= e.subrange(p1, p1 + 4 + q.len()));
    assert(e.subrange(p1, p1 + 4 + q.len()) =~= str32(q));
    assert(b.subrange(end - 8, end) =~= e.subrange(e.len() - 8, e.len() as int));
    assert(e.subrange(e.len() - 8, e.len() as int) =~= u64_le(m.limit as u64));
    lemma_u64_le_round_trip(m.limit as u64);
}

/// Decodes the canonical bytes of a lexical request from `b[s..end]`.
#[verifier::rlimit(30)]
pub(crate) fn decode_lexical_request(b: &[u8], s: usize, end: usize) -> (r: Result<LexicalRequest, RetrievalProofError>)
    requires
        s <= end <= b@.len(),
    ensures
        r matches Ok(q) ==> lex_request_encodes(lex_request_model(q), b@.subrange(s as int, end as int)),
        forall|m: LexRequestModel| #[trigger] lex_request_encodes(m, b@.subrange(s as int, end as int)) ==> (
        r matches Ok(q) && lex_request_model(q) == m),
{
    let ghost region = b@.subrange(s as int, end as int);
    proof {
        assert forall|m: LexRequestModel| #[trigger] lex_request_encodes(m, region) implies
            s + 2 + m.index.len() <= end && name_field(m.index) == b@.subrange(s as int, s + 2 + m.index.len()) by {
            lemma_lex_request_parts(m, b@, s as int, end as int);
        }
    }
    let (index, p1) = match read_space_name(b, s, end, "lexical-index name is not UTF-8") {
        Ok(found) => found,
        Err(e) => {
            return Err(e);
        },
    };
    proof {
        assert forall|m: LexRequestModel| #[trigger] lex_request_encodes(m, region) implies
            p1 + 4 + encode_utf8(m.query).len() <= end && str32(encode_utf8(m.query)) == b@.subrange(
                p1 as int,
                p1 + 4 + encode_utf8(m.query).len(),
            ) by {
            lemma_lex_request_parts(m, b@, s as int, end as int);
        }
    }
    let (query, p2) = match read_text32(b, p1, end, "lexical query is not UTF-8") {
        Ok(found) => found,
        Err(e) => {
            return Err(e);
        },
    };
    if end - p2 < 8 {
        proof {
            assert forall|m: LexRequestModel| #[trigger] lex_request_encodes(m, region) implies false by {
                lemma_lex_request_parts(m, b@, s as int, end as int);
            }
        }
        return Err(RetrievalProofError::Invalid { reason: "truncated payload" });
    }
    let limit = read_u64_le(b, p2);
    if limit > usize::MAX as u64 {
        proof {
            assert forall|m: LexRequestModel| #[trigger] lex_request_encodes(m, region) implies false by {
                lemma_lex_request_parts(m, b@, s as int, end as int);
            }
        }
        return Err(RetrievalProofError::LengthOverflow);
    }
    if end - p2 != 8 {
        proof {
            assert forall|m: LexRequestModel| #[trigger] lex_request_encodes(m, region) implies false by {
                lemma_lex_request_parts(m, b@, s as int, end as int);
            }
        }
        return Err(RetrievalProofError::Invalid { reason: "trailing payload bytes" });
    }
    let request = LexicalRequest { index, query, limit: limit as usize };
    proof {
        crate::document::lemma_le_u64_bytes(b@.subrange(p2 as int, end as int));
        let q = lex_request_model(request);
        assert(region =~= b@.subrange(s as int, p1 as int) + b@.subrange(p1 as int, p2 as int) + b@.subrange(
            p2 as int,
            end as int,
        ));
        assert(region =~= lex_request_bytes(q));
        assert forall|m: LexRequestModel| #[trigger] lex_request_encodes(m, region) implies q == m by {
            lemma_lex_request_parts(m, b@, s as int, end as int);
            assert(m.index =~= q.index);
        }
    }
    Ok(request)
}

// ---------------------------------------------------------------------------
// Lexical-retrieval proofs.

/// Mathematical model of a lexical-retrieval proof.
pub struct LexProofModel {
    pub anchor: RetrievalProofAnchor,
    pub semantics_version: u16,
    pub request: LexRequestModel,
    pub outcome: LexOutcomeModel,
    pub proof_digest: Seq<u8>,
}

/// The payload of a lexical proof.
pub open spec fn lex_proof_payload(m: LexProofModel) -> Seq<u8> {
    proof_payload(lex_request_bytes(m.request), lex_outcome_bytes(m.outcome))
}

/// The canonical bytes of a lexical proof.
pub open spec fn lex_proof_bytes(m: LexProofModel) -> Seq<u8> {
    proof_envelope(LEXICAL_OPERATION, m.semantics_version, m.anchor, lex_proof_payload(m))
}

/// Why a lexical proof cannot be encoded, checked in order: anchor,
/// semantics, request, outcome, field lengths, size.
pub open spec fn lex_proof_fault(m: LexProofModel) -> Option<RetrievalProofError> {
    if !anchor_canonical(m.anchor) {
        Some(RetrievalProofError::Invalid { reason: "noncanonical checkpoint identity" })
    } else if m.semantics_version != LEXICAL_RETRIEVAL_SEMANTICS_VERSION {
        Some(
            RetrievalProofError::UnsupportedSemantics {
                found: m.semantics_version,
                supported: LEXICAL_RETRIEVAL_SEMANTICS_VERSION,
            },
        )
    } else if !lex_request_valid(m.request) {
        Some(RetrievalProofError::Invalid { reason: "invalid lexical request" })
    } else if lex_outcome_fault(m.request, m.outcome) is Some {
        Some(RetrievalProofError::Invalid { reason: lex_outcome_fault(m.request, m.outcome)->Some_0 })
    } else if !lex_request_fits(m.request) || !lex_outcome_fits(m.outcome) {
        Some(RetrievalProofError::LengthOverflow)
    } else {
        envelope_size_fault(lex_proof_payload(m).len() as int)
    }
}

/// A proof with nothing that prevents encoding, carrying the digest that
/// its own bytes carry.
pub open spec fn lex_proof_complete(m: LexProofModel) -> bool {
    lex_proof_fault(m) is None && m.proof_digest == lex_proof_bytes(m).subrange(100, 132)
}

/// A complete lexical proof whose request and outcome decoding can
/// produce.
pub open spec fn lex_proof_valid(m: LexProofModel) -> bool {
    &&& lex_proof_complete(m)
    &&& lex_request_shape(m.request)
    &&& lex_outcome_shape(m.outcome)
}

/// Canonical lexical-retrieval proof with embedded request and outcome.
#[derive(Clone, Debug, PartialEq, Eq)]
pub struct LexicalRetrievalProof {
    pub(crate) anchor: RetrievalProofAnchor,
    pub(crate) semantics_version: u16,
    pub(crate) request: LexicalRequest,
    pub(crate) outcome: LexicalOutcome,
    pub(crate) proof_digest: [u8; 32],
}

impl View for LexicalRetrievalProof {
    type V = LexProofModel;

    closed spec fn view(&self) -> LexProofModel {
        LexProofModel {
            anchor: self.anchor,
            semantics_version: self.semantics_version,
            request: lex_request_model(self.request),
            outcome: lex_outcome_model(self.outcome),
            proof_digest: self.proof_digest@,
        }
    }
}

/// Encodes a lexical proof after checking each embedded part.
fn encode_lexical_proof(proof: &LexicalRetrievalProof) -> (r: Result<Vec<u8>, RetrievalProofError>)
    ensures
        match lex_proof_fault(proof@) {
            Some(e) => r == Err::<Vec<u8>, RetrievalProofError>(e),
            None => r matches Ok(b) && b@ == lex_proof_bytes(proof@),
        },
{
    match validate_anchor(&proof.anchor) {
        Ok(()) => {},
        Err(e) => {
            return Err(e);
        },
    }
    if proof.semantics_version != LEXICAL_RETRIEVAL_SEMANTICS_VERSION {
        return Err(
            RetrievalProofError::UnsupportedSemantics {
                found: proof.semantics_version,
                supported: LEXICAL_RETRIEVAL_SEMANTICS_VERSION,
            },
        );
    }
    match validate_lexical_request(&proof.request) {
        Ok(()) => {},
        Err(e) => {
            return Err(e);
        },
    }
    match validate_lexical_outcome(&proof.request, &proof.outcome) {
        Ok(()) => {},
        Err(e) => {
            return Err(e);
        },
    }
    let request = match encode_lexical_request(&proof.request) {
        Ok(b) => b,
        Err(e) => {
            return Err(e);
        },
    };
    let outcome = match encode_lexical_outcome(&proof.outcome) {
        Ok(b) => b,
        Err(e) => {
            return Err(e);
        },
    };
    encode_envelope(LEXICAL_OPERATION, proof.semantics_version, &proof.anchor, request.as_slice(), outcome.as_slice())
}

impl LexicalRetrievalProof {
    /// Creates a canonical lexical proof over a format-2 snapshot: the
    /// embedded parts are checked, and the proof carries the digest of its
    /// own canonical bytes.
    pub fn new(snapshot: &SnapshotInfo, request: LexicalRequest, outcome: LexicalOutcome) -> (r: Result<
        Self,
        RetrievalProofError,
    >)
        ensures
            snapshot.disk_format_version != 2 ==> r == Err::<Self, RetrievalProofError>(
                RetrievalProofError::SnapshotFormatMismatch,
            ),
            snapshot.disk_format_version == 2 ==> ({
                let draft = LexProofModel {
                    anchor: RetrievalProofAnchor {
                        checkpoint_sequence: snapshot.checkpoint_sequence,
                        checkpoint_digest: snapshot.checkpoint_digest,
                        snapshot_digest: snapshot.snapshot_digest,
                    },
                    semantics_version: LEXICAL_RETRIEVAL_SEMANTICS_VERSION,
                    request: lex_request_model(request),
                    outcome: lex_outcome_model(outcome),
                    proof_digest: zero_digest(),
                };
                match lex_proof_fault(draft) {
                    Some(e) => r == Err::<Self, RetrievalProofError>(e),
                    None => r matches Ok(p) && p@ == (LexProofModel {
                        proof_digest: lex_proof_bytes(draft).subrange(100, 132),
                        ..draft
                    }) && lex_proof_complete(p@) && lex_request_shape(p@.request),
                }
            }),
    {
        if snapshot.disk_format_version != 2 {
            return Err(RetrievalProofError::SnapshotFormatMismatch);
        }
        let name = request.index.as_str();
        proof {
            vstd::utf8::encode_utf8_valid_utf8(name@);
        }
        let mut proof = LexicalRetrievalProof {
            anchor: RetrievalProofAnchor::from_snapshot(snapshot),
            semantics_version: LEXICAL_RETRIEVAL_SEMANTICS_VERSION,
            request,
            outcome,
            proof_digest: [0u8; 32],
        };
        proof {
            assert(proof@.proof_digest =~= zero_digest());
        }
        let encoded = match encode_lexical_proof(&proof) {
            Ok(b) => b,
            Err(e) => {
                return Err(e);
            },
        };
        proof.proof_digest = digest_at(encoded.as_slice(), 100);
        Ok(proof)
    }

    /// Encodes the complete proof into canonical portable bytes.
    pub fn to_bytes(&self) -> (r: Result<Vec<u8>, RetrievalProofError>)
        ensures
            match lex_proof_fault(self@) {
                Some(e) => r == Err::<Vec<u8>, RetrievalProofError>(e),
                None => r matches Ok(b) && b@ == lex_proof_bytes(self@),
            },
    {
        encode_lexical_proof(self)
    }

    /// Returns the exact snapshot/log anchor.
    pub fn anchor(&self) -> (r: &RetrievalProofAnchor)
        ensures
            *r == self@.anchor,
    {
        &self.anchor
    }

    /// Returns the caller-pinnable anchor digest.
    pub fn anchor_digest(&self) -> (r: [u8; 32])
        ensures
            r == blake3_hash(anchor_domain() + anchor_identity_bytes(self@.anchor)),
    {
        self.anchor.digest()
    }

    /// Returns the bound lexical semantics version.
    pub fn semantics_version(&self) -> (r: u16)
        ensures
            r == self@.semantics_version,
    {
        self.semantics_version
    }

    /// Returns the complete proven lexical request.
    pub fn request(&self) -> (r: &LexicalRequest)
        ensures
            lex_request_model(*r) == self@.request,
    {
        &self.request
    }

    /// Returns the complete proven lexical outcome.
    pub fn outcome(&self) -> (r: &LexicalOutcome)
        ensures
            lex_outcome_model(*r) == self@.outcome,
    {
        &self.outcome
    }

    /// Returns the digest of the canonical proof bytes.
    pub fn proof_digest(&self) -> (r: [u8; 32])
        ensures
            r@ == self@.proof_digest,
    {
        self.proof_digest
    }
}

// ---------------------------------------------------------------------------
// Decoding lexical proofs.

/// `m` is a lexical proof that decoding can produce, and `e` its canonical
/// bytes.
#[verifier::opaque]
pub open spec fn lex_proof_decodes(m: LexProofModel, e: Seq<u8>) -> bool {
    lex_proof_valid(m) && lex_proof_bytes(m) == e
}

pub(crate) proof fn lemma_lex_outcome_encodes_elim(o: LexOutcomeModel, region: Seq<u8>)
    requires
        lex_outcome_encodes(o, region),
    ensures
        lex_outcome_shape(o),
        lex_outcome_bytes(o) == region,
{
    reveal(lex_outcome_encodes);
}

/// Every length of a decodable outcome fits its field.
pub(crate) proof fn lemma_lex_outcome_shape_fits(o: LexOutcomeModel)
    requires
        lex_outcome_shape(o),
    ensures
        lex_outcome_fits(o),
{
    let qt = outcome_query_tokens(o);
    assert forall|i: int| 0 <= i < qt.len() implies encode_utf8(#[trigger] qt[i]).len() <= u32::MAX by {
        assert(token_shape(qt[i]));
    }
    if o is Matches {
        let ms = o->matches;
        assert forall|i: int| 0 <= i < ms.len() implies lex_match_fits(#[trigger] ms[i]) by {
            assert(lex_match_shape(ms[i]));
            let ts = ms[i].terms;
            assert forall|j: int| 0 <= j < ts.len() implies term_fits(#[trigger] ts[j]) by {
                assert(term_shape(ts[j]));
                let fs = ts[j].fields;
                assert forall|k: int| 0 <= k < fs.len() implies path_fits((#[trigger] fs[k]).path) by {
                    assert(field_shape(fs[k]));
                    let pth = fs[k].path;
                    assert forall|q: int| 0 <= q < pth.len() implies (#[trigger] pth[q]).len() <= u16::MAX by {
                        assert(segment_shape(pth[q]));
                    }
                }
            }
        }
    }
}

/// Where the request and outcome stand in the bytes of a lexical proof.
proof fn lemma_lex_payload_parts(m: LexProofModel, e: Seq<u8>)
    requires
        lex_proof_bytes(m) == e,
        132 + lex_proof_payload(m).len() <= u64::MAX,
    ensures
        ({
            let rq = lex_request_bytes(m.request);
            let oc = lex_outcome_bytes(m.outcome);
            &&& e.len() == 148 + rq.len() + oc.len()
            &&& e.subrange(132, 140 + rq.len() as int) == prefixed(rq)
            &&& e.subrange(140, 140 + rq.len() as int) == rq
            &&& e.subrange(140 + rq.len() as int, e.len() as int) == prefixed(oc)
            &&& e.subrange(148 + rq.len() as int, e.len() as int) == oc
            &&& le_u64(e.subrange(16, 24)) == m.anchor.checkpoint_sequence
            &&& digest_or_zero(m.anchor.checkpoint_digest) == e.subrange(24, 56)
            &&& m.anchor.snapshot_digest@ == e.subrange(56, 88)
        }),
{
    let rq = lex_request_bytes(m.request);
    let oc = lex_outcome_bytes(m.outcome);
    let payload = lex_proof_payload(m);
    lemma_envelope_layout(LEXICAL_OPERATION, m.semantics_version, m.anchor, payload);
    let tail = e.subrange(132, e.len() as int);
    assert(tail == prefixed(rq) + prefixed(oc));
    assert(e.subrange(132, 140 + rq.len() as int) =~= tail.subrange(0, 8 + rq.len() as int));
    assert(tail.subrange(0, 8 + rq.len() as int) =~= prefixed(rq));
    assert(e.subrange(140, 140 + rq.len() as int) =~= rq);
    assert(e.subrange(140 + rq.len() as int, e.len() as int) =~= tail.subrange(8 + rq.len() as int, tail.len() as int));
    assert(tail.subrange(8 + rq.len() as int, tail.len() as int) =~= prefixed(oc));
    assert(e.subrange(148 + rq.len() as int, e.len() as int) =~= oc);
}

/// Where the parts of a decodable lexical proof stand in its bytes.
proof fn lemma_lex_parts(m: LexProofModel, e: Seq<u8>)
    requires
        lex_proof_decodes(m, e),
    ensures
        ({
            let rq = lex_request_bytes(m.request);
            let oc = lex_outcome_bytes(m.outcome);
            &&& e.len() == 148 + rq.len() + oc.len()
            &&& e.subrange(132, 140 + rq.len() as int) == prefixed(rq)
            &&& e.subrange(140, 140 + rq.len() as int) == rq
            &&& e.subrange(140 + rq.len() as int, e.len() as int) == prefixed(oc)
            &&& e.subrange(148 + rq.len() as int, e.len() as int) == oc
            &&& lex_request_encodes(m.request, rq)
            &&& lex_outcome_encodes(m.outcome, oc)
            &&& le_u64(e.subrange(16, 24)) == m.anchor.checkpoint_sequence
            &&& digest_or_zero(m.anchor.checkpoint_digest) == e.subrange(24, 56)
            &&& m.anchor.snapshot_digest@ == e.subrange(56, 88)
            &&& anchor_canonical(m.anchor)
            &&& m.semantics_version == LEXICAL_RETRIEVAL_SEMANTICS_VERSION
            &&& m.proof_digest == e.subrange(100, 132)
        }),
{
    reveal(lex_proof_decodes);
    assert(lex_proof_fault(m) is None);
    lemma_lex_payload_parts(m, e);
    lemma_lex_outcome_encodes_intro(m.outcome, lex_outcome_bytes(m.outcome));
}

/// A proof assembled from verified bytes is decodable and encodes them.
proof fn lemma_lex_assembled(m: LexProofModel, e: Seq<u8>, re: int)
    requires
        envelope_error(e, LEXICAL_OPERATION, LEXICAL_RETRIEVAL_SEMANTICS_VERSION) is None,
        m.semantics_version == LEXICAL_RETRIEVAL_SEMANTICS_VERSION,
        m.anchor.checkpoint_sequence == le_u64(e.subrange(16, 24)),
        anchor_canonical(m.anchor),
        digest_or_zero(m.anchor.checkpoint_digest) == e.subrange(24, 56),
        m.anchor.snapshot_digest@ == e.subrange(56, 88),
        m.proof_digest == e.subrange(100, 132),
        140 <= re <= e.len(),
        e.subrange(132, re) == prefixed(lex_request_bytes(m.request)),
        e.subrange(re, e.len() as int) == prefixed(lex_outcome_bytes(m.outcome)),
        lex_request_shape(m.request),
        lex_outcome_shape(m.outcome),
        lex_request_valid(m.request),
        lex_outcome_fault(m.request, m.outcome) is None,
    ensures
        lex_proof_decodes(m, e),
{
    reveal(lex_proof_decodes);
    lemma_lex_outcome_shape_fits(m.outcome);
    assert(e.subrange(132, e.len() as int) =~= e.subrange(132, re) + e.subrange(re, e.len() as int));
    assert(e.subrange(132, e.len() as int) =~= lex_proof_payload(m));
    lemma_envelope_from_parts(e, m.anchor, LEXICAL_OPERATION, m.semantics_version);
}

impl LexicalRetrievalProof {
    /// Verifies and decodes canonical lexical proof bytes: the header checks
    /// in order, then exactly the bytes of decodable proofs decode, each to
    /// the proof they encode.
    #[verifier::spinoff_prover]
    #[verifier::rlimit(100)]
    pub fn from_bytes(encoded: &[u8]) -> (r: Result<Self, RetrievalProofError>)
        ensures
            envelope_error(encoded@, LEXICAL_OPERATION, LEXICAL_RETRIEVAL_SEMANTICS_VERSION) matches Some(h) ==> r
                == Err::<Self, RetrievalProofError>(h),
            envelope_error(encoded@, LEXICAL_OPERATION, LEXICAL_RETRIEVAL_SEMANTICS_VERSION) is None ==> {
                &&& r matches Ok(p) ==> lex_proof_decodes(p@, encoded@)
                &&& forall|m: LexProofModel| #[trigger] lex_proof_decodes(m, encoded@) ==> (r matches Ok(p) && p@ == m)
            },
    {
        let ghost e = encoded@;
        let (anchor, semantics, digest) = match decode_envelope(
            encoded,
            LEXICAL_OPERATION,
            LEXICAL_RETRIEVAL_SEMANTICS_VERSION,
        ) {
            Ok(found) => found,
            Err(err) => {
                return Err(err);
            },
        };
        let end = encoded.len();
        let ghost has = exists|m: LexProofModel| #[trigger] lex_proof_decodes(m, e);
        let ghost expected = choose|m: LexProofModel| #[trigger] lex_proof_decodes(m, e);
        proof {
            if has {
                lemma_lex_parts(expected, e);
            }
        }
        let (rs, re) = match take_prefixed(encoded, 132, end) {
            Ok(found) => found,
            Err(err) => {
                return Err(err);
            },
        };
        proof {
            if has {
                let rq = lex_request_bytes(expected.request);
                assert(rs == 140 && re == 140 + rq.len());
                assert(lex_request_encodes(expected.request, e.subrange(rs as int, re as int)));
            }
        }
        let request = match decode_lexical_request(encoded, rs, re) {
            Ok(q) => q,
            Err(err) => {
                return Err(err);
            },
        };
        let (os, oe) = match take_prefixed(encoded, re, end) {
            Ok(found) => found,
            Err(err) => {
                return Err(err);
            },
        };
        proof {
            if has {
                let oc = lex_outcome_bytes(expected.outcome);
                assert(os == re + 8 && oe == re + 8 + oc.len());
                assert(lex_outcome_encodes(expected.outcome, e.subrange(os as int, oe as int)));
            }
        }
        let outcome = match decode_lexical_outcome(encoded, os, oe) {
            Ok(o) => o,
            Err(err) => {
                return Err(err);
            },
        };
        if oe != end {
            return Err(RetrievalProofError::Invalid { reason: "trailing payload bytes" });
        }
        proof {
            if has {
                reveal(lex_proof_decodes);
            }
        }
        match validate_lexical_request(&request) {
            Ok(()) => {},
            Err(err) => {
                return Err(err);
            },
        }
        match validate_lexical_outcome(&request, &outcome) {
            Ok(()) => {},
            Err(err) => {
                return Err(err);
            },
        }
        let proof = LexicalRetrievalProof {
            anchor,
            semantics_version: semantics,
            request,
            outcome,
            proof_digest: digest,
        };
        proof {
            let m = proof@;
            lemma_lex_outcome_encodes_elim(m.outcome, e.subrange(os as int, oe as int));
            lemma_lex_assembled(m, e, re as int);
            assert forall|x: LexProofModel| #[trigger] lex_proof_decodes(x, e) implies m == x by {
                lemma_lex_parts(x, e);
                let rq = lex_request_bytes(x.request);
                let oc = lex_outcome_bytes(x.outcome);
                assert(rs == 140 && re == 140 + rq.len());
                assert(lex_request_encodes(x.request, e.subrange(rs as int, re as int)));
                assert(os == re + 8 && oe == re + 8 + oc.len());
                assert(lex_outcome_encodes(x.outcome, e.subrange(os as int, oe as int)));
                lemma_anchor_equal(m.anchor, x.anchor);
            }
        }
        Ok(proof)
    }
}

/// Decoding the bytes of a lexical proof that decoding can produce gives the
/// proof back: the bytes pass every header check and decode to exactly that
/// proof.
pub proof fn lemma_lexical_proof_round_trip(m: LexProofModel)
    requires
        lex_proof_valid(m),
    ensures
        envelope_error(lex_proof_bytes(m), LEXICAL_OPERATION, LEXICAL_RETRIEVAL_SEMANTICS_VERSION) is None,
        lex_proof_decodes(m, lex_proof_bytes(m)),
{
    reveal(lex_proof_decodes);
    let e = lex_proof_bytes(m);
    let payload = lex_proof_payload(m);
    lemma_envelope_layout(LEXICAL_OPERATION, m.semantics_version, m.anchor, payload);
    lemma_u64_le_round_trip(m.anchor.checkpoint_sequence);
    if m.anchor.checkpoint_sequence == 0 {
        assert(m.anchor.checkpoint_digest is None);
    }
}


proof fn lemma_terms_fault_none(ts: Seq<TermModel>, j: int, scanned: u64)
    requires
        0 <= j,
        terms_fault(ts, j, scanned) is None,
    ensures
        forall|k: int| j <= k < ts.len() ==> #[trigger] term_ok(ts, k, scanned) && fields_valid(ts[k].fields),
    decreases ts.len() - j,
{
    if j < ts.len() {
        lemma_terms_fault_none(ts, j + 1, scanned);
    }
}

proof fn lemma_matches_fault_none(ms: Seq<LexMatchModel>, i: int, scanned: u64)
    requires
        0 <= i,
        lex_matches_fault(ms, i, scanned) is None,
    ensures
        forall|k: int|
            i <= k < ms.len() ==> {
                &&& lex_match_ok(#[trigger] ms[k])
                &&& k > 0 ==> lex_precedes(ms[k - 1], ms[k])
                &&& score_prefix(ms[k].terms, ms[k].terms.len() as int) == ms[k].score_nanos
                &&& forall|t: int| 0 <= t < ms[k].terms.len() ==> #[trigger] term_ok(ms[k].terms, t, scanned)
            },
    decreases ms.len() - i,
{
    if i < ms.len() {
        lemma_matches_fault_none(ms, i + 1, scanned);
        lemma_terms_fault_none(ms[i].terms, 0, scanned);
    }
}

/// What every lexical proof that decodes holds: semantics version 1, a
/// request with a nonzero limit and a query with tokens, the outcome's query
/// tokens canonical for that query, and for matches: between one and
/// `limit` of them, no more than the matched count, itself no more than the
/// scanned count; each match with a key within bounds, a positive score equal
/// to the sum of its term scores, ranked strictly by score then key; each
/// term with a token, a document frequency in `1..=scanned`, a positive
/// score, and tokens strictly ascending.
pub proof fn lemma_lexical_proof_decoded(m: LexProofModel, e: Seq<u8>)
    requires
        lex_proof_decodes(m, e),
    ensures
        m.semantics_version == LEXICAL_RETRIEVAL_SEMANTICS_VERSION,
        anchor_canonical(m.anchor),
        m.request.limit >= 1,
        tokens_v1(m.request.query).len() != 0,
        canonical_token_list(outcome_query_tokens(m.outcome), tokens_v1(m.request.query)),
        m.outcome matches LexOutcomeModel::Matches { matches, scanned_documents, matched_documents, .. } ==> {
            &&& 1 <= matches.len() <= m.request.limit
            &&& matches.len() <= matched_documents <= scanned_documents
            &&& forall|k: int|
                0 <= k < matches.len() ==> {
                    &&& lex_match_ok(#[trigger] matches[k])
                    &&& k > 0 ==> lex_precedes(matches[k - 1], matches[k])
                    &&& score_prefix(matches[k].terms, matches[k].terms.len() as int) == matches[k].score_nanos
                    &&& forall|t: int|
                        0 <= t < matches[k].terms.len() ==> #[trigger] term_ok(matches[k].terms, t, scanned_documents)
                }
        },
{
    reveal(lex_proof_decodes);
    match m.outcome {
        LexOutcomeModel::Matches { matches, scanned_documents, .. } => {
            lemma_matches_fault_none(matches, 0, scanned_documents);
        },
        _ => {},
    }
}

} // verus!
