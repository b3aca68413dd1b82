//! Version 1 wire models, hexadecimal keys, and their domain conversions.
use vstd::prelude::*;
use vstd::string::StringSliceAdditionalSpecFns;
use vstd::utf8::{encode_utf8, is_ascii_chars_encode_utf8};

use crate::query::{AggregationPlan, Metric, NamedMetric, NullPlacement, SortDirection, SortField};
use crate::value::{strings_bytes, FieldPath};

verus! {

/// Reserved object key representing opaque bytes in the natural JSON value
/// surface.
pub const BYTES_HEX_KEY: &'static str = "$hyphae_bytes_hex";

/// Stable version 1 public error envelope.
#[derive(Clone, Debug, PartialEq, Eq)]
pub struct ErrorV1 {
    /// Stable machine-readable error code.
    pub code: String,
    /// Bounded human-readable diagnostic.
    pub message: String,
    /// Generated request identifier also returned as a response header.
    pub request_id: String,
}

/// Public capability response.
#[derive(Clone, Debug, PartialEq, Eq)]
pub struct CapabilitiesV1 {
    /// Fixed API path version.
    pub api_version: String,
    /// Current numeric data-directory format.
    pub disk_format_version: u16,
    /// Sorted implemented feature identifiers.
    pub features: Vec<String>,
    /// Effective policy limits visible to clients.
    pub limits: ApiLimitsV1,
}

/// Public server policy limits.
#[derive(Clone, Copy, Debug, PartialEq, Eq)]
pub struct ApiLimitsV1 {
    pub key_bytes: u64,
    pub document_bytes: u64,
    pub request_body_bytes: u64,
    pub json_depth: u64,
    pub json_nodes: u64,
    pub request_body_timeout_ms: u64,
    pub batch_items: u64,
    pub scanned_records: u64,
    pub matched_records: u64,
    pub result_rows: u64,
    pub aggregation_groups: u64,
    pub filter_nodes: u64,
    pub filter_depth: u64,
    pub sort_fields: u64,
    pub group_fields: u64,
    pub metrics: u64,
    pub concurrent_operations: u64,
    pub query_timeout_ms: u64,
    pub proof_bytes: u64,
    pub witness_bytes: u64,
    pub response_bytes: u64,
    pub vector_dimensions: u64,
    pub retrieval_candidates: u64,
    pub retrieval_candidate_bytes: u64,
    pub retrieval_results: u64,
    pub retrieval_timeout_ms: u64,
    pub retrieval_proof_bytes: u64,
    pub lexical_documents: u64,
    pub lexical_tokens: u64,
    pub lexical_candidates: u64,
    pub lexical_results: u64,
    pub lexical_timeout_ms: u64,
}

/// Liveness or readiness response.
#[derive(Clone, Debug, PartialEq, Eq)]
pub struct HealthV1 {
    /// `live` or `ready`.
    pub status: String,
}

/// Atomic key deletion request.
#[derive(Clone, Debug, PartialEq, Eq)]
pub struct DeleteRequestV1 {
    /// Optional client transaction identifier.
    pub transaction_id: Option<String>,
    /// Binary keys encoded as hexadecimal.
    pub keys_hex: Vec<String>,
}

/// Exact key lookup request.
#[derive(Clone, Debug, PartialEq, Eq)]
pub struct GetRequestV1 {
    /// Binary key encoded as hexadecimal.
    pub key_hex: String,
}

/// Durable vector metric.
#[derive(Clone, Copy, Debug, PartialEq, Eq)]
pub enum VectorMetricV1 {
    /// Canonical signed-Q15 cosine in nanos.
    CosineQ15Nanos,
}

/// Durable vector-space definition.
#[derive(Clone, Debug, PartialEq, Eq)]
pub struct VectorSpaceV1 {
    pub name: String,
    pub dimension: u16,
    pub metric: VectorMetricV1,
}

/// Request defining one vector space.
#[derive(Clone, Debug, PartialEq, Eq)]
pub struct DefineVectorSpaceRequestV1 {
    pub transaction_id: Option<String>,
    pub vector_space: VectorSpaceV1,
}

/// One durable vector.
#[derive(Clone, Debug, PartialEq, Eq)]
pub struct VectorV1 {
    pub key_hex: String,
    pub values: Vec<i16>,
}

/// Atomic vector upsert request.
#[derive(Clone, Debug, PartialEq, Eq)]
pub struct PutVectorsRequestV1 {
    pub transaction_id: Option<String>,
    pub vector_space: String,
    pub vectors: Vec<VectorV1>,
}

/// Atomic vector deletion request.
#[derive(Clone, Debug, PartialEq, Eq)]
pub struct DeleteVectorsRequestV1 {
    pub transaction_id: Option<String>,
    pub vector_space: String,
    pub keys_hex: Vec<String>,
}

/// Durable exact retrieval request.
#[derive(Clone, Debug, PartialEq, Eq)]
pub struct ExactRetrievalRequestV1 {
    pub vector_space: String,
    pub query: Vec<i16>,
    pub limit: u64,
    pub minimum_score_nanos: i64,
    pub minimum_margin_nanos: u64,
    pub timeout_ms: Option<u64>,
}

/// One exact retrieval match.
#[derive(Clone, Debug, PartialEq, Eq)]
pub struct ExactRetrievalMatchV1 {
    pub key_hex: String,
    pub score_nanos: i64,
}

/// Stable exact-retrieval abstention reason.
#[derive(Clone, Copy, Debug, PartialEq, Eq)]
pub enum ExactAbstentionReasonV1 {
    NoCandidates,
    BelowThreshold,
    Ambiguous,
}

/// Exact-retrieval abstention evidence.
#[derive(Clone, Debug, PartialEq, Eq)]
pub struct ExactAbstentionV1 {
    pub reason: ExactAbstentionReasonV1,
    pub best_score_nanos: Option<i64>,
    pub runner_up_score_nanos: Option<i64>,
    pub scanned_candidates: u64,
}

/// Exact-retrieval outcome.
#[derive(Clone, Debug, PartialEq, Eq)]
pub enum ExactRetrievalOutcomeV1 {
    Matches { matches: Vec<ExactRetrievalMatchV1>, scanned_candidates: u64 },
    Abstained { abstention: ExactAbstentionV1 },
}

/// Portable retrieval proof and its witness.
#[derive(Clone, Debug, PartialEq, Eq)]
pub struct RetrievalProofV1 {
    pub encoding: String,
    pub data: String,
    pub proof_digest: String,
    pub anchor_digest: String,
    pub checkpoint_sequence: u64,
    pub checkpoint_digest: Option<String>,
    pub snapshot_digest: String,
    pub witness: WitnessV1,
}

/// Exact retrieval response.
#[derive(Clone, Debug, PartialEq, Eq)]
pub struct ExactRetrievalResponseV1 {
    pub outcome: ExactRetrievalOutcomeV1,
    pub proof: RetrievalProofV1,
}

/// One weighted lexical field.
#[derive(Clone, Debug, PartialEq, Eq)]
pub struct LexicalFieldV1 {
    pub path: Vec<String>,
    pub weight_micros: u32,
}

/// Durable lexical index definition.
#[derive(Clone, Debug, PartialEq, Eq)]
pub struct LexicalIndexV1 {
    pub name: String,
    pub fields: Vec<LexicalFieldV1>,
}

/// Request defining one lexical index.
#[derive(Clone, Debug, PartialEq, Eq)]
pub struct DefineLexicalIndexRequestV1 {
    pub transaction_id: Option<String>,
    pub lexical_index: LexicalIndexV1,
}

/// Lexical retrieval request.
#[derive(Clone, Debug, PartialEq, Eq)]
pub struct LexicalRetrievalRequestV1 {
    pub lexical_index: String,
    pub query: String,
    pub limit: u64,
    pub timeout_ms: Option<u64>,
}

/// One field's contribution to a term score.
#[derive(Clone, Debug, PartialEq, Eq)]
pub struct LexicalFieldContributionV1 {
    pub path: Vec<String>,
    pub term_frequency: u64,
    pub field_length: u64,
}

/// One query term's contribution to a match.
#[derive(Clone, Debug, PartialEq, Eq)]
pub struct LexicalTermContributionV1 {
    pub token: String,
    pub document_frequency: u64,
    pub score_nanos: i64,
    pub fields: Vec<LexicalFieldContributionV1>,
}

/// One lexical match.
#[derive(Clone, Debug, PartialEq, Eq)]
pub struct LexicalRetrievalMatchV1 {
    pub key_hex: String,
    pub score_nanos: i64,
    pub terms: Vec<LexicalTermContributionV1>,
}

/// Stable lexical abstention reason.
#[derive(Clone, Copy, Debug, PartialEq, Eq)]
pub enum LexicalAbstentionReasonV1 {
    NoCandidates,
}

/// Lexical abstention evidence.
#[derive(Clone, Debug, PartialEq, Eq)]
pub struct LexicalAbstentionV1 {
    pub reason: LexicalAbstentionReasonV1,
    pub scanned_documents: u64,
    pub query_tokens: Vec<String>,
}

/// Lexical retrieval outcome.
#[derive(Clone, Debug, PartialEq, Eq)]
pub enum LexicalRetrievalOutcomeV1 {
    Matches {
        matches: Vec<LexicalRetrievalMatchV1>,
        scanned_documents: u64,
        matched_documents: u64,
        query_tokens: Vec<String>,
    },
    Abstained { abstention: LexicalAbstentionV1 },
}

/// Lexical retrieval response.
#[derive(Clone, Debug, PartialEq, Eq)]
pub struct LexicalRetrievalResponseV1 {
    pub outcome: LexicalRetrievalOutcomeV1,
    pub proof: RetrievalProofV1,
}

/// Hybrid retrieval request.
#[derive(Clone, Debug, PartialEq, Eq)]
pub struct HybridRetrievalRequestV1 {
    pub lexical: LexicalRetrievalRequestV1,
    pub vector: ExactRetrievalRequestV1,
    pub lexical_weight: u32,
    pub vector_weight: u32,
    pub limit: u64,
}

/// Why one hybrid branch produced no candidates.
#[derive(Clone, Copy, Debug, PartialEq, Eq)]
pub enum HybridBranchAbsenceV1 {
    LexicalNoCandidates,
    VectorNoCandidates,
    VectorBelowThreshold,
    VectorAmbiguous,
}

/// Rank-fusion explanation of one hybrid match.
#[derive(Clone, Debug, PartialEq, Eq)]
pub struct HybridExplanationV1 {
    pub lexical_rank: Option<u64>,
    pub lexical_score_nanos: Option<i64>,
    pub vector_rank: Option<u64>,
    pub vector_score_nanos: Option<i64>,
    pub lexical_contribution: u64,
    pub vector_contribution: u64,
    pub fusion_score: u64,
    pub final_rank: u64,
}

/// One hybrid match.
#[derive(Clone, Debug, PartialEq, Eq)]
pub struct HybridRetrievalMatchV1 {
    pub key_hex: String,
    pub explanation: HybridExplanationV1,
}

/// Hybrid abstention: both branches were empty.
#[derive(Clone, Debug, PartialEq, Eq)]
pub struct HybridAbstentionV1 {
    pub lexical: HybridBranchAbsenceV1,
    pub vector: HybridBranchAbsenceV1,
}

/// Hybrid retrieval outcome.
#[derive(Clone, Debug, PartialEq, Eq)]
pub enum HybridRetrievalOutcomeV1 {
    Matches {
        matches: Vec<HybridRetrievalMatchV1>,
        lexical_absence: Option<HybridBranchAbsenceV1>,
        vector_absence: Option<HybridBranchAbsenceV1>,
    },
    Abstained { abstention: HybridAbstentionV1 },
}

/// Hybrid retrieval response.
#[derive(Clone, Debug, PartialEq, Eq)]
pub struct HybridRetrievalResponseV1 {
    pub outcome: HybridRetrievalOutcomeV1,
    pub proof: RetrievalProofV1,
}

/// Durable commit receipt.
#[derive(Clone, Debug, PartialEq, Eq)]
pub struct CommitReceiptV1 {
    pub status: String,
    pub transaction_id: String,
    pub commit_sequence: u64,
    pub commit_digest: String,
    pub transaction_digest: String,
}

/// Portable result proof and its witness.
#[derive(Clone, Debug, PartialEq, Eq)]
pub struct ProofV1 {
    pub encoding: String,
    pub data: String,
    pub proof_digest: String,
    pub anchor_digest: String,
    pub checkpoint_sequence: u64,
    pub checkpoint_digest: Option<String>,
    pub snapshot_digest: String,
    pub witness: WitnessV1,
}

/// Downloadable snapshot witness.
#[derive(Clone, Debug, PartialEq, Eq)]
pub struct WitnessV1 {
    pub path: String,
    pub file_bytes: u64,
}

/// Wire comparison operator.
#[derive(Clone, Copy, Debug, PartialEq, Eq)]
pub enum CompareOperatorV1 {
    Equal,
    NotEqual,
    Less,
    LessOrEqual,
    Greater,
    GreaterOrEqual,
}

/// Wire sort direction.
#[derive(Clone, Copy, Debug, PartialEq, Eq)]
pub enum SortDirectionV1 {
    Ascending,
    Descending,
}

/// Wire null placement.
#[derive(Clone, Copy, Debug, PartialEq, Eq)]
pub enum NullPlacementV1 {
    First,
    Last,
}

/// Wire sort field.
#[derive(Clone, Debug, PartialEq, Eq)]
pub struct SortFieldV1 {
    pub path: Vec<String>,
    pub direction: SortDirectionV1,
    pub nulls: NullPlacementV1,
}

/// Wire aggregate metric.
#[derive(Clone, Debug, PartialEq, Eq)]
pub enum NamedMetricV1 {
    Count { name: String },
    Sum { name: String, path: Vec<String> },
    Min { name: String, path: Vec<String> },
    Max { name: String, path: Vec<String> },
}

/// Wire aggregation plan.
#[derive(Clone, Debug, PartialEq, Eq)]
pub struct AggregationPlanV1 {
    pub group_by: Vec<Vec<String>>,
    pub metrics: Vec<NamedMetricV1>,
}

/// Failure converting wire values into domain values.
#[derive(Clone, Copy, Debug, PartialEq, Eq, Structural)]
pub enum WireValueError {
    /// Structured values accept only signed 64-bit integer JSON numbers.
    NonIntegerNumber,
    /// Invalid reserved bytes hexadecimal envelope.
    InvalidBytesHex,
    /// Invalid binary key hexadecimal.
    InvalidKeyHex,
    /// A field path contains an empty segment.
    EmptyPathSegment,
    /// The query page size is not representable on this target.
    LengthOverflow,
}

// ---------------------------------------------------------------------------
// Hexadecimal.

/// The lowercase hexadecimal digit of a nibble.
pub open spec fn hex_digit(n: u8) -> char {
    if n < 10 {
        ((48 + n) as u8) as char
    } else {
        ((87 + n) as u8) as char
    }
}

/// Lowercase hexadecimal of bytes: two digits per byte, high nibble first.
pub open spec fn hex_chars(bytes: Seq<u8>) -> Seq<char> {
    Seq::new(
        2 * bytes.len(),
        |i: int|
            if i % 2 == 0 {
                hex_digit(bytes[i / 2] / 16)
            } else {
                hex_digit(bytes[i / 2] % 16)
            },
    )
}

/// The value of an ASCII hexadecimal digit of either case.
pub open spec fn nibble_value(b: u8) -> Option<u8> {
    if 48 <= b <= 57 {
        Some((b - 48) as u8)
    } else if 97 <= b <= 102 {
        Some((b - 87) as u8)
    } else if 65 <= b <= 70 {
        Some((b - 55) as u8)
    } else {
        None
    }
}

/// Bytes that are an even number of hexadecimal digits.
pub open spec fn is_hex(e: Seq<u8>) -> bool {
    e.len() % 2 == 0 && forall|i: int| 0 <= i < e.len() ==> #[trigger] nibble_value(e[i]) is Some
}

/// The bytes that hexadecimal digits denote.
pub open spec fn hex_value(e: Seq<u8>) -> Seq<u8> {
    Seq::new(
        e.len() / 2,
        |i: int| (nibble_value(e[2 * i])->0 * 16 + nibble_value(e[2 * i + 1])->0) as u8,
    )
}

proof fn lemma_hex_digit(n: u8)
    requires
        n < 16,
    ensures
        '\0' <= hex_digit(n) <= '\u{7f}',
        nibble_value(hex_digit(n) as u8) == Some(n),
{
    if n < 10 {
        assert((((48 + n) as u8) as char) as u8 == 48 + n);
    } else {
        assert((((87 + n) as u8) as char) as u8 == 87 + n);
    }
}

/// Decoding the hexadecimal text of any bytes gives the bytes back.
pub proof fn lemma_hex_round_trip(bytes: Seq<u8>)
    ensures
        is_hex(encode_utf8(hex_chars(bytes))),
        hex_value(encode_utf8(hex_chars(bytes))) == bytes,
{
    let cs = hex_chars(bytes);
    assert forall|i: int| 0 <= i < cs.len() implies '\0' <= #[trigger] cs[i] <= '\u{7f}' by {
        lemma_hex_digit(bytes[i / 2] / 16);
        lemma_hex_digit(bytes[i / 2] % 16);
    }
    is_ascii_chars_encode_utf8(cs);
    let e = encode_utf8(cs);
    assert forall|i: int| 0 <= i < e.len() implies #[trigger] nibble_value(e[i]) is Some by {
        assert(cs[i] as u8 == e[i]);
        lemma_hex_digit(bytes[i / 2] / 16);
        lemma_hex_digit(bytes[i / 2] % 16);
    }
    assert forall|k: int| 0 <= k < bytes.len() implies #[trigger] hex_value(e)[k] == bytes[k] by {
        let x = bytes[k];
        assert(cs[2 * k] as u8 == e[2 * k]);
        assert(cs[2 * k + 1] as u8 == e[2 * k + 1]);
        assert((2 * k) / 2 == k);
        assert((2 * k + 1) / 2 == k);
        assert((2 * k) % 2 == 0);
        assert((2 * k + 1) % 2 == 1);
        lemma_hex_digit(x / 16);
        lemma_hex_digit(x % 16);
        assert(((x / 16) * 16 + x % 16) as u8 == x) by (bit_vector);
    }
    assert(hex_value(e) =~= bytes);
}

pub(crate) fn hex_digit_of(n: u8) -> (c: char)
    requires
        n < 16,
    ensures
        c == hex_digit(n),
{
    if n < 10 {
        (48 + n) as char
    } else {
        (87 + n) as char
    }
}

/// Encodes arbitrary bytes as lowercase hexadecimal.
pub fn encode_hex(bytes: &[u8]) -> (r: String)
    ensures
        r@ == hex_chars(bytes@),
{
    let mut encoded = String::new();
    let mut i: usize = 0;
    while i < bytes.len()
        invariant
            i <= bytes@.len(),
            encoded@ =~= hex_chars(bytes@.subrange(0, i as int)),
        decreases bytes@.len() - i,
    {
        let b = bytes[i];
        let ghost before = encoded@;
        crate::lexical::push_char(&mut encoded, hex_digit_of(b / 16));
        crate::lexical::push_char(&mut encoded, hex_digit_of(b % 16));
        proof {
            let next = hex_chars(bytes@.subrange(0, i + 1));
            assert forall|j: int| 0 <= j < next.len() implies encoded@[j] == next[j] by {
                if j < 2 * i {
                    assert(encoded@[j] == before[j]);
                    assert(bytes@.subrange(0, i + 1)[j / 2] == bytes@.subrange(0, i as int)[j / 2]);
                }
            }
        }
        i = i + 1;
    }
    proof {
        assert(bytes@.subrange(0, bytes@.len() as int) =~= bytes@);
    }
    encoded
}

pub(crate) fn hex_nibble(value: u8) -> (r: Option<u8>)
    ensures
        r == nibble_value(value),
{
    if 48 <= value && value <= 57 {
        Some(value - 48)
    } else if 97 <= value && value <= 102 {
        Some(value - 87)
    } else if 65 <= value && value <= 70 {
        Some(value - 55)
    } else {
        None
    }
}

/// Decodes hexadecimal digits of either case; `None` for an odd length or a
/// non-hexadecimal byte.
pub fn decode_hex(encoded: &[u8]) -> (r: Option<Vec<u8>>)
    ensures
        match r {
            Some(v) => is_hex(encoded@) && v@ == hex_value(encoded@),
            None => !is_hex(encoded@),
        },
{
    if encoded.len() % 2 != 0 {
        return None;
    }
    let mut decoded: Vec<u8> = Vec::new();
    let mut i: usize = 0;
    while i < encoded.len() / 2
        invariant
            encoded@.len() % 2 == 0,
            i <= encoded@.len() / 2,
            decoded@.len() == i,
            forall|j: int| 0 <= j < 2 * i ==> #[trigger] nibble_value(encoded@[j]) is Some,
            forall|j: int| 0 <= j < i ==> #[trigger] decoded@[j] == hex_value(encoded@)[j],
        decreases encoded@.len() / 2 - i,
    {
        let high = match hex_nibble(encoded[2 * i]) {
            Some(n) => n,
            None => {
                return None;
            },
        };
        let low = match hex_nibble(encoded[2 * i + 1]) {
            Some(n) => n,
            None => {
                return None;
            },
        };
        decoded.push(high * 16 + low);
        i = i + 1;
    }
    proof {
        assert(decoded@ =~= hex_value(encoded@));
    }
    Some(decoded)
}

/// Decodes a nonempty hexadecimal binary key.
pub fn decode_key_hex(encoded: &str) -> (r: Result<Vec<u8>, WireValueError>)
    ensures
        match r {
            Ok(v) => is_hex(encoded.spec_bytes()) && encoded.spec_bytes().len() > 0 && v@ == hex_value(
                encoded.spec_bytes(),
            ),
            Err(e) => e == WireValueError::InvalidKeyHex && !(is_hex(encoded.spec_bytes())
                && encoded.spec_bytes().len() > 0),
        },
{
    match decode_hex(encoded.as_bytes()) {
        Some(decoded) => {
            if decoded.len() == 0 {
                Err(WireValueError::InvalidKeyHex)
            } else {
                Ok(decoded)
            }
        },
        None => Err(WireValueError::InvalidKeyHex),
    }
}

// ---------------------------------------------------------------------------
// Domain conversions.

/// Every segment is nonempty.
pub open spec fn segments_nonempty(segments: Seq<String>) -> bool {
    forall|i: int| 0 <= i < segments.len() ==> (#[trigger] segments[i])@.len() > 0
}

/// A field path from nonempty wire segments.
pub fn field_path(segments: &Vec<String>) -> (r: Result<FieldPath, WireValueError>)
    ensures
        match r {
            Ok(p) => segments_nonempty(segments@) && p@ == strings_bytes(segments@),
            Err(e) => e == WireValueError::EmptyPathSegment && !segments_nonempty(segments@),
        },
{
    let mut copied: Vec<String> = Vec::new();
    let mut i: usize = 0;
    while i < segments.len()
        invariant
            i <= segments@.len(),
            copied@ == segments@.subrange(0, i as int),
            forall|j: int| 0 <= j < i ==> (#[trigger] segments@[j])@.len() > 0,
        decreases segments@.len() - i,
    {
        if segments[i].as_str().is_empty() {
            proof {
                assert(segments@[i as int]@.len() == 0);
            }
            return Err(WireValueError::EmptyPathSegment);
        }
        copied.push(segments[i].clone());
        i = i + 1;
    }
    proof {
        assert(segments@.subrange(0, segments@.len() as int) =~= segments@);
    }
    Ok(FieldPath::new(copied))
}

/// A domain sort field from its wire form.
pub fn sort_to_domain(field: &SortFieldV1) -> (r: Result<SortField, WireValueError>)
    ensures
        match r {
            Ok(s) => segments_nonempty(field.path@) && s.path@ == strings_bytes(field.path@) && (s.direction == SortDirection::Ascending
                <==> field.direction == SortDirectionV1::Ascending) && (s.nulls == NullPlacement::First
                <==> field.nulls == NullPlacementV1::First),
            Err(e) => e == WireValueError::EmptyPathSegment && !segments_nonempty(field.path@),
        },
{
    let path = match field_path(&field.path) {
        Ok(p) => p,
        Err(e) => {
            return Err(e);
        },
    };
    Ok(
        SortField {
            path,
            direction: match field.direction {
                SortDirectionV1::Ascending => SortDirection::Ascending,
                SortDirectionV1::Descending => SortDirection::Descending,
            },
            nulls: match field.nulls {
                NullPlacementV1::First => NullPlacement::First,
                NullPlacementV1::Last => NullPlacement::Last,
            },
        },
    )
}

/// Every group path and every metric path of a plan has nonempty segments.
pub open spec fn plan_paths_ok(plan: AggregationPlanV1) -> bool {
    &&& forall|j: int| 0 <= j < plan.group_by@.len() ==> segments_nonempty((#[trigger] plan.group_by@[j])@)
    &&& forall|j: int| 0 <= j < plan.metrics@.len() ==> metric_path_ok(#[trigger] plan.metrics@[j])
}

/// The name and path of a wire metric.
pub open spec fn wire_metric_parts(m: NamedMetricV1) -> (String, Option<Vec<String>>) {
    match m {
        NamedMetricV1::Count { name } => (name, None),
        NamedMetricV1::Sum { name, path } => (name, Some(path)),
        NamedMetricV1::Min { name, path } => (name, Some(path)),
        NamedMetricV1::Max { name, path } => (name, Some(path)),
    }
}

/// A domain metric is the wire metric with its path converted.
pub open spec fn metric_converted(m: NamedMetricV1, d: NamedMetric) -> bool {
    &&& d.name@ == wire_metric_parts(m).0@
    &&& match (m, d.metric) {
        (NamedMetricV1::Count { .. }, Metric::Count) => true,
        (NamedMetricV1::Sum { path, .. }, Metric::Sum(p)) => p@ == strings_bytes(path@),
        (NamedMetricV1::Min { path, .. }, Metric::Min(p)) => p@ == strings_bytes(path@),
        (NamedMetricV1::Max { path, .. }, Metric::Max(p)) => p@ == strings_bytes(path@),
        _ => false,
    }
}

/// Every segment of the wire metric's path, if it has one, is nonempty.
pub open spec fn metric_path_ok(m: NamedMetricV1) -> bool {
    match wire_metric_parts(m).1 {
        Some(path) => segments_nonempty(path@),
        None => true,
    }
}

fn metric_to_domain(metric: &NamedMetricV1) -> (r: Result<NamedMetric, WireValueError>)
    ensures
        r matches Ok(d) ==> metric_converted(*metric, d),
        r is Ok <==> metric_path_ok(*metric),
        r matches Err(e) ==> e == WireValueError::EmptyPathSegment,
{
    let (name, path) = match metric {
        NamedMetricV1::Count { name } => {
            return Ok(NamedMetric { name: name.clone(), metric: Metric::Count });
        },
        NamedMetricV1::Sum { name, path } => (name, path),
        NamedMetricV1::Min { name, path } => (name, path),
        NamedMetricV1::Max { name, path } => (name, path),
    };
    let converted = match field_path(path) {
        Ok(p) => p,
        Err(e) => {
            proof {
                assert(wire_metric_parts(*metric).1 == Some(*path));
            }
            return Err(e);
        },
    };
    proof {
        assert(wire_metric_parts(*metric).1 == Some(*path));
    }
    let metric = match metric {
        NamedMetricV1::Sum { .. } => Metric::Sum(converted),
        NamedMetricV1::Min { .. } => Metric::Min(converted),
        _ => Metric::Max(converted),
    };
    Ok(NamedMetric { name: name.clone(), metric })
}

/// A domain aggregation plan from its wire form.
pub fn aggregation_to_domain(plan: &AggregationPlanV1) -> (r: Result<AggregationPlan, WireValueError>)
    ensures
        match r {
            Ok(d) => d.group_by@.len() == plan.group_by@.len() && (forall|i: int|
                0 <= i < plan.group_by@.len() ==> (#[trigger] d.group_by@[i])@ == strings_bytes(
                    plan.group_by@[i]@,
                )) && d.metrics@.len() == plan.metrics@.len() && (forall|i: int|
                0 <= i < plan.metrics@.len() ==> metric_converted(plan.metrics@[i], #[trigger] d.metrics@[i])),
            Err(e) => e == WireValueError::EmptyPathSegment,
        },
        r is Ok <==> plan_paths_ok(*plan),
{
    let mut group_by: Vec<FieldPath> = Vec::new();
    let mut i: usize = 0;
    while i < plan.group_by.len()
        invariant
            i <= plan.group_by@.len(),
            group_by@.len() == i,
            forall|j: int| 0 <= j < i ==> (#[trigger] group_by@[j])@ == strings_bytes(plan.group_by@[j]@),
            forall|j: int| 0 <= j < i ==> segments_nonempty((#[trigger] plan.group_by@[j])@),
        decreases plan.group_by@.len() - i,
    {
        match field_path(&plan.group_by[i]) {
            Ok(p) => group_by.push(p),
            Err(e) => {
                return Err(e);
            },
        }
        i = i + 1;
    }
    let mut metrics: Vec<NamedMetric> = Vec::new();
    let mut k: usize = 0;
    while k < plan.metrics.len()
        invariant
            k <= plan.metrics@.len(),
            metrics@.len() == k,
            forall|j: int| 0 <= j < k ==> metric_converted(plan.metrics@[j], #[trigger] metrics@[j]),
            forall|j: int| 0 <= j < k ==> metric_path_ok(#[trigger] plan.metrics@[j]),
            forall|j: int| 0 <= j < plan.group_by@.len() ==> segments_nonempty((#[trigger] plan.group_by@[j])@),
        decreases plan.metrics@.len() - k,
    {
        match metric_to_domain(&plan.metrics[k]) {
            Ok(m) => metrics.push(m),
            Err(e) => {
                return Err(e);
            },
        }
        k = k + 1;
    }
    Ok(AggregationPlan { group_by, metrics })
}

} // verus!
