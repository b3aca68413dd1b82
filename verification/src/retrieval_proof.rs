//! Canonical durable-retrieval proofs: the checksummed envelope, the exact
//! request and outcome codecs, and their validation.
use vstd::prelude::*;
use vstd::utf8::{encode_utf8, valid_utf8};

use crate::canonical::{
    ExactAbstention, ExactAbstentionReason, ExactRetrievalError, ExactRetrievalMatch,
    ExactRetrievalOutcome, ExactRetrievalRequest,
};
use crate::digest::{blake3_digest, blake3_hash, crc32c_append, crc32c_append_value};
use crate::document::{
    copy_range, utf8_text, extend, le_u16, le_u32, le_u64, lemma_u16_le_round_trip, lemma_u32_le_round_trip,
    lemma_u64_le_round_trip, push_u16_le, push_u32_le, push_u64_le, read_u16_le, read_u32_le,
    read_u64_le, u16_le, u32_le, u64_le, DocumentError,
};
use crate::shared::{
    is_canonical_q15, is_canonical_space_name, VectorValueError, SCORE_NANOS_SCALE,
};
use crate::value::{bytes_order, compare_bytes, Comparison};

verus! {

/// Version of the canonical retrieval-proof envelope.
pub const RETRIEVAL_PROOF_FORMAT_VERSION: u16 = 1;

/// Durable exact-retrieval semantics version bound into proofs.
pub const EXACT_RETRIEVAL_SEMANTICS_VERSION: u16 = 2;

/// Durable lexical-retrieval semantics version bound into proofs.
pub const LEXICAL_RETRIEVAL_SEMANTICS_VERSION: u16 = 1;

/// Deterministic hybrid-retrieval semantics version bound into proofs.
pub const HYBRID_RETRIEVAL_SEMANTICS_VERSION: u16 = 1;

/// Hard maximum canonical retrieval-proof file length.
pub const MAX_RETRIEVAL_PROOF_BYTES: u64 = 67_108_864;

/// Largest record key the storage layer accepts.
pub const MAX_KEY_BYTES: usize = 65_536;

/// Operation code of an exact-retrieval proof.
pub const EXACT_OPERATION: u16 = 1;

/// Operation code of a lexical-retrieval proof.
pub const LEXICAL_OPERATION: u16 = 2;

/// Operation code of a hybrid-retrieval proof.
pub const HYBRID_OPERATION: u16 = 3;

/// Length of the retrieval-proof header.
pub const PROOF_HEADER_LENGTH: usize = 132;

/// Failure while encoding, reading, or verifying a retrieval proof.
#[derive(Clone, Copy, Debug, PartialEq, Eq)]
pub enum RetrievalProofError {
    /// A vector value in the proof is not canonical.
    Vector(VectorValueError),
    /// Exact retrieval validation or replay failed.
    Retrieval(ExactRetrievalError),
    /// Lexical validation or replay failed.
    Lexical(crate::lexical::LexicalError),
    /// Hybrid fusion or its replay failed.
    Hybrid(crate::hybrid::HybridError),
    /// Snapshot document decoding failed.
    Document(DocumentError),
    /// Proof bytes violate the canonical format.
    Invalid {
        /// Stable diagnostic reason.
        reason: &'static str,
    },
    /// Proof format is newer than this verifier.
    UnsupportedVersion {
        /// Version found in proof bytes.
        found: u16,
        /// Supported version.
        supported: u16,
    },
    /// The proof is for another retrieval operation.
    UnsupportedOperation {
        /// Operation found in proof bytes.
        found: u16,
    },
    /// The proof binds unsupported retrieval semantics.
    UnsupportedSemantics {
        /// Semantics version found in proof bytes.
        found: u16,
        /// Supported semantics version.
        supported: u16,
    },
    /// Proof file exceeds the hard bound.
    ProofLimitExceeded {
        /// Observed proof bytes.
        actual: u64,
        /// Maximum.
        maximum: u64,
    },
    /// A canonical length or count cannot be represented safely.
    LengthOverflow,
    /// Fast accidental-corruption check failed.
    ChecksumMismatch,
    /// Canonical proof content digest failed.
    DigestMismatch,
    /// Proof anchor did not match caller-pinned trust state.
    AnchorMismatch,
    /// Snapshot metadata does not match the proof anchor.
    SnapshotAnchorMismatch,
    /// Retrieval proofs require a disk-format-2 snapshot witness.
    SnapshotFormatMismatch,
    /// Deterministic replay did not reproduce the embedded outcome.
    ReexecutionMismatch,
    /// End-to-end verification deadline expired.
    TimedOut,
}

// ---------------------------------------------------------------------------
// Anchors.

/// Verified snapshot metadata that a retrieval proof is anchored to.
#[derive(Clone, Copy, Debug, PartialEq, Eq)]
pub struct SnapshotInfo {
    /// Materialized commit sequence captured by the snapshot.
    pub checkpoint_sequence: u64,
    /// Commit digest captured by the snapshot, absent only for empty history.
    pub checkpoint_digest: Option<[u8; 32]>,
    /// Canonical logical snapshot digest.
    pub snapshot_digest: [u8; 32],
    /// Disk format of the snapshot witness.
    pub disk_format_version: u16,
}

/// Snapshot and log checkpoint identity trusted by one retrieval proof.
#[derive(Clone, Copy, Debug, PartialEq, Eq)]
pub struct RetrievalProofAnchor {
    /// Materialized commit sequence captured by the snapshot.
    pub checkpoint_sequence: u64,
    /// Commit digest captured by the snapshot, absent only for empty history.
    pub checkpoint_digest: Option<[u8; 32]>,
    /// Canonical logical snapshot digest.
    pub snapshot_digest: [u8; 32],
}

/// Thirty-two zero bytes.
pub open spec fn zero_digest() -> Seq<u8> {
    Seq::new(32, |i: int| 0u8)
}

/// The checkpoint digest, or zeros for empty history.
pub open spec fn digest_or_zero(d: Option<[u8; 32]>) -> Seq<u8> {
    match d {
        Some(b) => b@,
        None => zero_digest(),
    }
}

/// The anchor fields as they stand in proof bytes: sequence, checkpoint
/// digest or zeros, snapshot digest.
pub open spec fn anchor_identity_bytes(a: RetrievalProofAnchor) -> Seq<u8> {
    u64_le(a.checkpoint_sequence) + digest_or_zero(a.checkpoint_digest) + a.snapshot_digest@
}

/// `hyphae-retrieval-anchor-v1`.
pub open spec fn anchor_domain() -> Seq<u8> {
    seq![
        104u8, 121u8, 112u8, 104u8, 97u8, 101u8, 45u8, 114u8, 101u8, 116u8, 114u8, 105u8, 101u8,
        118u8, 97u8, 108u8, 45u8, 97u8, 110u8, 99u8, 104u8, 111u8, 114u8, 45u8, 118u8, 49u8,
    ]
}

/// An anchor is canonical when exactly the empty history has no digest.
pub open spec fn anchor_canonical(a: RetrievalProofAnchor) -> bool {
    (a.checkpoint_sequence == 0) == (a.checkpoint_digest is None)
}

/// Appends thirty-two zero bytes.
fn push_zero_digest(out: &mut Vec<u8>)
    ensures
        final(out)@ == old(out)@ + zero_digest(),
{
    let mut i: usize = 0;
    let ghost start = out@;
    while i < 32
        invariant
            i <= 32,
            out@ == start + Seq::new(i as nat, |j: int| 0u8),
        decreases 32 - i,
    {
        out.push(0);
        proof {
            assert(Seq::new((i + 1) as nat, |j: int| 0u8) =~= Seq::new(i as nat, |j: int| 0u8).push(0u8));
        }
        i = i + 1;
    }
    proof {
        assert(Seq::new(32 as nat, |j: int| 0u8) =~= zero_digest());
    }
}

/// Appends the anchor fields in proof-byte order.
fn push_anchor_identity(out: &mut Vec<u8>, anchor: &RetrievalProofAnchor)
    ensures
        final(out)@ == old(out)@ + anchor_identity_bytes(*anchor),
{
    let ghost start = out@;
    push_u64_le(out, anchor.checkpoint_sequence);
    match &anchor.checkpoint_digest {
        Some(d) => extend(out, d),
        None => push_zero_digest(out),
    }
    extend(out, &anchor.snapshot_digest);
    proof {
        assert(out@ =~= start + anchor_identity_bytes(*anchor));
    }
}

impl RetrievalProofAnchor {
    /// Creates an anchor from already verified snapshot metadata.
    pub fn from_snapshot(snapshot: &SnapshotInfo) -> (r: Self)
        ensures
            r.checkpoint_sequence == snapshot.checkpoint_sequence,
            r.checkpoint_digest == snapshot.checkpoint_digest,
            r.snapshot_digest == snapshot.snapshot_digest,
    {
        RetrievalProofAnchor {
            checkpoint_sequence: snapshot.checkpoint_sequence,
            checkpoint_digest: snapshot.checkpoint_digest,
            snapshot_digest: snapshot.snapshot_digest,
        }
    }

    /// Computes the caller-pinnable retrieval-specific anchor digest: BLAKE3
    /// of the domain tag and the anchor fields.
    pub fn digest(&self) -> (r: [u8; 32])
        ensures
            r == blake3_hash(anchor_domain() + anchor_identity_bytes(*self)),
    {
        let mut input: Vec<u8> = Vec::new();
        extend(
            &mut input,
            &[
                104u8, 121u8, 112u8, 104u8, 97u8, 101u8, 45u8, 114u8, 101u8, 116u8, 114u8, 105u8,
                101u8, 118u8, 97u8, 108u8, 45u8, 97u8, 110u8, 99u8, 104u8, 111u8, 114u8, 45u8,
                118u8, 49u8,
            ],
        );
        proof {
            assert(input@ =~= anchor_domain());
        }
        push_anchor_identity(&mut input, self);
        blake3_digest(input.as_slice())
    }
}

// ---------------------------------------------------------------------------
// The envelope.

/// `HYRPF001`.
pub open spec fn proof_magic() -> Seq<u8> {
    seq![72u8, 89u8, 82u8, 80u8, 70u8, 48u8, 48u8, 49u8]
}

/// `hyphae-retrieval-proof-v1`.
pub open spec fn proof_domain() -> Seq<u8> {
    seq![
        104u8, 121u8, 112u8, 104u8, 97u8, 101u8, 45u8, 114u8, 101u8, 116u8, 114u8, 105u8, 101u8,
        118u8, 97u8, 108u8, 45u8, 112u8, 114u8, 111u8, 111u8, 102u8, 45u8, 118u8, 49u8,
    ]
}

/// The header bytes before the checksum: magic, format version, zero flags,
/// operation, semantics version, anchor, payload length.
pub open spec fn proof_header_prefix(op: u16, semantics: u16, a: RetrievalProofAnchor, payload_len: u64) -> Seq<u8> {
    proof_magic() + u16_le(RETRIEVAL_PROOF_FORMAT_VERSION) + u16_le(0) + u16_le(op) + u16_le(semantics)
        + anchor_identity_bytes(a) + u64_le(payload_len)
}

/// Bytes behind their 64-bit length.
pub open spec fn prefixed(d: Seq<u8>) -> Seq<u8> {
    u64_le(d.len() as u64) + d
}

/// The payload: the request and outcome, each behind its 64-bit length.
pub open spec fn proof_payload(request: Seq<u8>, outcome: Seq<u8>) -> Seq<u8> {
    prefixed(request) + prefixed(outcome)
}

/// The checksummed proof bytes: header prefix, CRC-32C of the prefix and
/// payload, BLAKE3 of the domain tag, checksummed prefix and payload, then
/// the payload.
pub open spec fn proof_envelope(op: u16, semantics: u16, a: RetrievalProofAnchor, payload: Seq<u8>) -> Seq<u8> {
    let h96 = proof_header_prefix(op, semantics, a, payload.len() as u64);
    let crc = crc32c_append_value(crc32c_append_value(0, h96), payload);
    let h100 = h96 + u32_le(crc);
    h100 + blake3_hash(proof_domain() + h100 + payload)@ + payload
}

/// The failure of wrapping a payload of `payload_len` bytes, if any.
pub open spec fn envelope_size_fault(payload_len: int) -> Option<RetrievalProofError> {
    if PROOF_HEADER_LENGTH + payload_len > usize::MAX {
        Some(RetrievalProofError::LengthOverflow)
    } else if PROOF_HEADER_LENGTH + payload_len > MAX_RETRIEVAL_PROOF_BYTES {
        Some(
            RetrievalProofError::ProofLimitExceeded {
                actual: (PROOF_HEADER_LENGTH + payload_len) as u64,
                maximum: MAX_RETRIEVAL_PROOF_BYTES,
            },
        )
    } else {
        None
    }
}

/// Wraps an encoded request and outcome in the checksummed envelope.
pub(crate) fn encode_envelope(
    op: u16,
    semantics: u16,
    anchor: &RetrievalProofAnchor,
    request: &[u8],
    outcome: &[u8],
) -> (r: Result<Vec<u8>, RetrievalProofError>)
    ensures
        match envelope_size_fault(proof_payload(request@, outcome@).len() as int) {
            Some(e) => r == Err::<Vec<u8>, RetrievalProofError>(e),
            None => r matches Ok(b) && b@ == proof_envelope(op, semantics, *anchor, proof_payload(request@, outcome@)),
        },
{
    let mut payload: Vec<u8> = Vec::new();
    push_u64_le(&mut payload, request.len() as u64);
    extend(&mut payload, request);
    push_u64_le(&mut payload, outcome.len() as u64);
    extend(&mut payload, outcome);
    proof {
        assert(payload@ =~= proof_payload(request@, outcome@));
    }
    let file_length = match 132usize.checked_add(payload.len()) {
        Some(n) => n,
        None => {
            return Err(RetrievalProofError::LengthOverflow);
        },
    };
    if file_length as u64 > MAX_RETRIEVAL_PROOF_BYTES {
        return Err(
            RetrievalProofError::ProofLimitExceeded {
                actual: file_length as u64,
                maximum: MAX_RETRIEVAL_PROOF_BYTES,
            },
        );
    }
    let mut header: Vec<u8> = Vec::new();
    extend(&mut header, &[72u8, 89u8, 82u8, 80u8, 70u8, 48u8, 48u8, 49u8]);
    push_u16_le(&mut header, RETRIEVAL_PROOF_FORMAT_VERSION);
    push_u16_le(&mut header, 0);
    push_u16_le(&mut header, op);
    push_u16_le(&mut header, semantics);
    push_anchor_identity(&mut header, anchor);
    push_u64_le(&mut header, payload.len() as u64);
    proof {
        assert((&[72u8, 89u8, 82u8, 80u8, 70u8, 48u8, 48u8, 49u8])@ =~= proof_magic());
        assert(header@ =~= proof_header_prefix(op, semantics, *anchor, payload@.len() as u64));
    }
    let checksum = crc32c_append(crc32c_append(0, header.as_slice()), payload.as_slice());
    push_u32_le(&mut header, checksum);
    let mut digested: Vec<u8> = Vec::new();
    extend(
        &mut digested,
        &[
            104u8, 121u8, 112u8, 104u8, 97u8, 101u8, 45u8, 114u8, 101u8, 116u8, 114u8, 105u8,
            101u8, 118u8, 97u8, 108u8, 45u8, 112u8, 114u8, 111u8, 111u8, 102u8, 45u8, 118u8,
            49u8,
        ],
    );
    proof {
        assert(digested@ =~= proof_domain());
    }
    extend(&mut digested, header.as_slice());
    extend(&mut digested, payload.as_slice());
    let digest = blake3_digest(digested.as_slice());
    let mut encoded = header;
    extend(&mut encoded, &digest);
    extend(&mut encoded, payload.as_slice());
    proof {
        assert(encoded@ =~= proof_envelope(op, semantics, *anchor, payload@));
    }
    Ok(encoded)
}

// ---------------------------------------------------------------------------
// Exact requests and outcomes as bytes.

/// Mathematical model of an exact-retrieval request: the space name as its
/// UTF-8 bytes and the query as its elements.
pub struct ExactRequestModel {
    pub name: Seq<u8>,
    pub query: Seq<i16>,
    pub limit: usize,
    pub minimum_score_nanos: i64,
    pub minimum_margin_nanos: u64,
}

/// The model of a request.
pub open spec fn exact_request_model(r: ExactRetrievalRequest) -> ExactRequestModel {
    ExactRequestModel {
        name: r.vector_space@,
        query: r.query@,
        limit: r.limit,
        minimum_score_nanos: r.minimum_score_nanos,
        minimum_margin_nanos: r.minimum_margin_nanos,
    }
}

/// Mathematical model of an exact-retrieval outcome: matches as key bytes
/// and score.
pub enum ExactOutcomeModel {
    Matches { matches: Seq<(Seq<u8>, i64)>, scanned_candidates: u64 },
    Abstained(ExactAbstention),
}

/// Key bytes and score of each match.
pub open spec fn exact_match_pairs(ms: Seq<ExactRetrievalMatch>) -> Seq<(Seq<u8>, i64)> {
    Seq::new(ms.len(), |i: int| (ms[i].key@, ms[i].score_nanos))
}

/// The model of an outcome.
pub open spec fn exact_outcome_model(o: ExactRetrievalOutcome) -> ExactOutcomeModel {
    match o {
        ExactRetrievalOutcome::Matches { matches, scanned_candidates } => ExactOutcomeModel::Matches {
            matches: exact_match_pairs(matches@),
            scanned_candidates,
        },
        ExactRetrievalOutcome::Abstained(a) => ExactOutcomeModel::Abstained(a),
    }
}

/// Two's-complement little-endian bytes of a 16-bit value.
pub open spec fn i16_le(x: i16) -> Seq<u8> {
    u16_le(x as u16)
}

/// Two's-complement little-endian bytes of a 64-bit value.
pub open spec fn i64_le(x: i64) -> Seq<u8> {
    u64_le(x as u64)
}

/// The bytes of each element, in order.
pub open spec fn i16s_le(v: Seq<i16>) -> Seq<u8>
    decreases v.len(),
{
    if v.len() == 0 {
        Seq::empty()
    } else {
        i16s_le(v.drop_last()) + i16_le(v.last())
    }
}

/// A length-prefixed space name.
pub open spec fn name_field(name: Seq<u8>) -> Seq<u8> {
    u16_le(name.len() as u16) + name
}

/// A query: its dimension, then its elements.
pub open spec fn query_field(q: Seq<i16>) -> Seq<u8> {
    u16_le(q.len() as u16) + i16s_le(q)
}

/// The fixed-width request parameters: limit, minimum score, minimum margin.
pub open spec fn tail_bytes(limit: usize, minimum_score_nanos: i64, minimum_margin_nanos: u64) -> Seq<u8> {
    u64_le(limit as u64) + i64_le(minimum_score_nanos) + u64_le(minimum_margin_nanos)
}

/// Canonical request bytes: name length and name, dimension and elements,
/// limit, minimum score, minimum margin.
pub open spec fn exact_request_bytes(m: ExactRequestModel) -> Seq<u8> {
    name_field(m.name) + query_field(m.query) + tail_bytes(m.limit, m.minimum_score_nanos, m.minimum_margin_nanos)
}

/// One match: key length and key, then score.
pub open spec fn match_bytes(p: (Seq<u8>, i64)) -> Seq<u8> {
    u32_le(p.0.len() as u32) + p.0 + i64_le(p.1)
}

/// The bytes of each match, in order.
pub open spec fn matches_bytes(ms: Seq<(Seq<u8>, i64)>) -> Seq<u8>
    decreases ms.len(),
{
    if ms.len() == 0 {
        Seq::empty()
    } else {
        matches_bytes(ms.drop_last()) + match_bytes(ms.last())
    }
}

/// The tag of an abstention reason.
pub open spec fn reason_tag(r: ExactAbstentionReason) -> u8 {
    match r {
        ExactAbstentionReason::NoCandidates => 1,
        ExactAbstentionReason::BelowThreshold => 2,
        ExactAbstentionReason::Ambiguous => 3,
    }
}

/// An optional score: a zero byte, or a one byte and the score.
pub open spec fn optional_score_bytes(s: Option<i64>) -> Seq<u8> {
    match s {
        None => seq![0u8],
        Some(x) => seq![1u8] + i64_le(x),
    }
}

/// Canonical outcome bytes: tag, scanned candidates, then the matches with
/// their count, or the abstention reason and scores.
pub open spec fn exact_outcome_bytes(m: ExactOutcomeModel) -> Seq<u8> {
    match m {
        ExactOutcomeModel::Matches { matches, scanned_candidates } => seq![1u8] + u64_le(scanned_candidates)
            + u64_le(matches.len() as u64) + matches_bytes(matches),
        ExactOutcomeModel::Abstained(a) => seq![2u8] + u64_le(a.scanned_candidates) + seq![reason_tag(a.reason)]
            + optional_score_bytes(a.best_score_nanos) + optional_score_bytes(a.runner_up_score_nanos),
    }
}

// ---------------------------------------------------------------------------
// Validation of embedded models.

/// A request that decoding can produce: a canonical UTF-8 space name and a
/// canonical query.
pub open spec fn request_shape(m: ExactRequestModel) -> bool {
    &&& valid_utf8(m.name)
    &&& is_canonical_space_name(m.name)
    &&& is_canonical_q15(m.query)
}

/// The validation of a request's own parameters.
pub open spec fn request_check(m: ExactRequestModel) -> Result<(), ExactRetrievalError> {
    if m.limit == 0 {
        Err(ExactRetrievalError::ZeroLimit)
    } else if !(-SCORE_NANOS_SCALE <= m.minimum_score_nanos <= SCORE_NANOS_SCALE) {
        Err(ExactRetrievalError::InvalidMinimumScore)
    } else if m.minimum_margin_nanos > 2 * SCORE_NANOS_SCALE {
        Err(ExactRetrievalError::InvalidMinimumMargin)
    } else {
        Ok(())
    }
}

/// A score in the canonical range.
pub open spec fn score_in_range(s: i64) -> bool {
    -SCORE_NANOS_SCALE <= s <= SCORE_NANOS_SCALE
}

/// A nonempty key within the storage bound and a score in range.
pub open spec fn match_valid(p: (Seq<u8>, i64)) -> bool {
    0 < p.0.len() <= MAX_KEY_BYTES && score_in_range(p.1)
}

/// `a` ranks strictly before `b`: higher score, then smaller key.
pub open spec fn match_precedes(a: (Seq<u8>, i64), b: (Seq<u8>, i64)) -> bool {
    a.1 > b.1 || (a.1 == b.1 && bytes_order(a.0, b.0) < 0)
}

/// The first match fault from index `i` on.
pub open spec fn matches_fault(ms: Seq<(Seq<u8>, i64)>, i: int) -> Option<&'static str>
    decreases ms.len() - i,
{
    if i < 0 || i >= ms.len() {
        None
    } else if !match_valid(ms[i]) {
        Some("invalid exact match")
    } else if i > 0 && !match_precedes(ms[i - 1], ms[i]) {
        Some("matches are not canonically ordered")
    } else {
        matches_fault(ms, i + 1)
    }
}

/// Abstention evidence consistent with its reason.
pub open spec fn abstention_canonical(a: ExactAbstention) -> bool {
    match a.reason {
        ExactAbstentionReason::NoCandidates => a.scanned_candidates == 0 && a.best_score_nanos is None
            && a.runner_up_score_nanos is None,
        ExactAbstentionReason::BelowThreshold => a.scanned_candidates > 0 && a.best_score_nanos is Some,
        ExactAbstentionReason::Ambiguous => a.scanned_candidates > 1 && a.best_score_nanos is Some
            && a.runner_up_score_nanos is Some,
    }
}

/// The fault of an outcome under a request limit, checked in order.
pub open spec fn outcome_fault(limit: usize, m: ExactOutcomeModel) -> Option<&'static str> {
    match m {
        ExactOutcomeModel::Matches { matches, scanned_candidates } => {
            if matches.len() == 0 || matches.len() > limit || matches.len() > scanned_candidates {
                Some("invalid match count")
            } else {
                matches_fault(matches, 0)
            }
        },
        ExactOutcomeModel::Abstained(a) => {
            if (a.best_score_nanos matches Some(s) && !score_in_range(s)) || (
            a.runner_up_score_nanos matches Some(s) && !score_in_range(s)) {
                Some("invalid abstention score")
            } else if !abstention_canonical(a) {
                Some("noncanonical abstention evidence")
            } else {
                None
            }
        },
    }
}

pub(crate) proof fn lemma_matches_fault_none(ms: Seq<(Seq<u8>, i64)>, i: int)
    requires
        0 <= i <= ms.len(),
        matches_fault(ms, i) is None,
    ensures
        forall|j: int| i <= j < ms.len() ==> match_valid(#[trigger] ms[j]),
        forall|j: int| i < j < ms.len() && j > 0 ==> match_precedes(ms[j - 1], #[trigger] ms[j]),
    decreases ms.len() - i,
{
    if i < ms.len() {
        lemma_matches_fault_none(ms, i + 1);
    }
}

fn check_match(previous: Option<&ExactRetrievalMatch>, matched: &ExactRetrievalMatch) -> (r: Option<&'static str>)
    ensures
        !match_valid((matched.key@, matched.score_nanos)) ==> r == Some("invalid exact match"),
        match_valid((matched.key@, matched.score_nanos)) ==> match previous {
            None => r is None,
            Some(p) => if match_precedes((p.key@, p.score_nanos), (matched.key@, matched.score_nanos)) {
                r is None
            } else {
                r == Some("matches are not canonically ordered")
            },
        },
{
    if matched.key.len() == 0 || matched.key.len() > MAX_KEY_BYTES || matched.score_nanos < -1_000_000_000
        || matched.score_nanos > 1_000_000_000 {
        return Some("invalid exact match");
    }
    match previous {
        None => None,
        Some(p) => {
            if p.score_nanos < matched.score_nanos {
                return Some("matches are not canonically ordered");
            }
            if p.score_nanos == matched.score_nanos {
                match compare_bytes(p.key.as_slice(), matched.key.as_slice()) {
                    Comparison::Less => {},
                    _ => {
                        return Some("matches are not canonically ordered");
                    },
                }
            }
            None
        },
    }
}

fn score_ok(s: Option<i64>) -> (r: bool)
    ensures
        r == !(s matches Some(x) && !score_in_range(x)),
{
    match s {
        Some(x) => -1_000_000_000 <= x && x <= 1_000_000_000,
        None => true,
    }
}

/// Checks the embedded outcome against the request limit.
pub(crate) fn validate_outcome(limit: usize, outcome: &ExactRetrievalOutcome) -> (r: Result<(), RetrievalProofError>)
    ensures
        match outcome_fault(limit, exact_outcome_model(*outcome)) {
            Some(reason) => r == Err::<(), RetrievalProofError>(RetrievalProofError::Invalid { reason }),
            None => r is Ok,
        },
{
    match outcome {
        ExactRetrievalOutcome::Matches { matches, scanned_candidates } => {
            let ghost ms = exact_match_pairs(matches@);
            if matches.len() == 0 || matches.len() > limit || matches.len() as u64 > *scanned_candidates {
                return Err(RetrievalProofError::Invalid { reason: "invalid match count" });
            }
            let mut i: usize = 0;
            while i < matches.len()
                invariant
                    ms == exact_match_pairs(matches@),
                    exact_outcome_model(*outcome) == (ExactOutcomeModel::Matches {
                        matches: ms,
                        scanned_candidates: *scanned_candidates,
                    }),
                    !(ms.len() == 0 || ms.len() > limit || ms.len() > *scanned_candidates),
                    i <= ms.len(),
                    matches_fault(ms, 0) == matches_fault(ms, i as int),
                decreases ms.len() - i,
            {
                let previous = if i == 0 {
                    None
                } else {
                    Some(&matches[i - 1])
                };
                proof {
                    assert(ms[i as int] == (matches@[i as int].key@, matches@[i as int].score_nanos));
                    if i > 0 {
                        assert(ms[i - 1] == (matches@[i - 1].key@, matches@[i - 1].score_nanos));
                    }
                }
                match check_match(previous, &matches[i]) {
                    Some(reason) => {
                        proof {
                            assert(matches_fault(ms, i as int) == Some(reason));
                        }
                        return Err(RetrievalProofError::Invalid { reason });
                    },
                    None => {},
                }
                proof {
                    assert(matches_fault(ms, i as int) == matches_fault(ms, i + 1));
                }
                i = i + 1;
            }
            Ok(())
        },
        ExactRetrievalOutcome::Abstained(a) => {
            if !score_ok(a.best_score_nanos) || !score_ok(a.runner_up_score_nanos) {
                return Err(RetrievalProofError::Invalid { reason: "invalid abstention score" });
            }
            let canonical = match a.reason {
                ExactAbstentionReason::NoCandidates => a.scanned_candidates == 0 && a.best_score_nanos.is_none()
                    && a.runner_up_score_nanos.is_none(),
                ExactAbstentionReason::BelowThreshold => a.scanned_candidates > 0 && a.best_score_nanos.is_some(),
                ExactAbstentionReason::Ambiguous => a.scanned_candidates > 1 && a.best_score_nanos.is_some()
                    && a.runner_up_score_nanos.is_some(),
            };
            if !canonical {
                return Err(RetrievalProofError::Invalid { reason: "noncanonical abstention evidence" });
            }
            Ok(())
        },
    }
}

// ---------------------------------------------------------------------------
// Encoding exact requests and outcomes.

pub(crate) fn push_i64_le(out: &mut Vec<u8>, x: i64)
    ensures
        final(out)@ == old(out)@ + i64_le(x),
{
    push_u64_le(out, x as u64);
}

fn push_i16s_le(out: &mut Vec<u8>, values: &[i16])
    ensures
        final(out)@ == old(out)@ + i16s_le(values@),
{
    let ghost start = out@;
    let mut i: usize = 0;
    proof {
        assert(values@.subrange(0, 0) =~= Seq::<i16>::empty());
    }
    while i < values.len()
        invariant
            i <= values@.len(),
            out@ == start + i16s_le(values@.subrange(0, i as int)),
        decreases values@.len() - i,
    {
        push_u16_le(out, values[i] as u16);
        proof {
            let v = values@.subrange(0, i + 1);
            assert(v.drop_last() =~= values@.subrange(0, i as int));
            assert(v.last() == values@[i as int]);
            assert(out@ =~= start + i16s_le(v));
        }
        i = i + 1;
    }
    proof {
        assert(values@.subrange(0, values@.len() as int) =~= values@);
    }
}

/// Canonical bytes of a request.
pub(crate) fn encode_request(request: &ExactRetrievalRequest) -> (r: Vec<u8>)
    ensures
        r@ == exact_request_bytes(exact_request_model(*request)),
{
    let name = request.vector_space.as_str().as_bytes();
    let mut out: Vec<u8> = Vec::new();
    push_u16_le(&mut out, name.len() as u16);
    extend(&mut out, name);
    push_u16_le(&mut out, request.query.dimension());
    push_i16s_le(&mut out, request.query.as_slice());
    push_u64_le(&mut out, request.limit as u64);
    push_i64_le(&mut out, request.minimum_score_nanos);
    push_u64_le(&mut out, request.minimum_margin_nanos);
    proof {
        assert(out@ =~= exact_request_bytes(exact_request_model(*request)));
    }
    out
}

pub(crate) fn push_optional_score(out: &mut Vec<u8>, s: Option<i64>)
    ensures
        final(out)@ == old(out)@ + optional_score_bytes(s),
{
    match s {
        None => {
            out.push(0);
            proof {
                assert(final(out)@ =~= old(out)@ + optional_score_bytes(s));
            }
        },
        Some(x) => {
            out.push(1);
            push_i64_le(out, x);
            proof {
                assert(final(out)@ =~= old(out)@ + optional_score_bytes(s));
            }
        },
    }
}

/// Every match key of an outcome fits the storage bound.
pub open spec fn outcome_keys_fit(m: ExactOutcomeModel) -> bool {
    m matches ExactOutcomeModel::Matches { matches, .. } ==> forall|i: int|
        0 <= i < matches.len() ==> (#[trigger] matches[i]).0.len() <= MAX_KEY_BYTES
}

/// Canonical bytes of an outcome whose keys fit the storage bound.
pub(crate) fn encode_outcome(outcome: &ExactRetrievalOutcome) -> (r: Vec<u8>)
    requires
        outcome_keys_fit(exact_outcome_model(*outcome)),
    ensures
        r@ == exact_outcome_bytes(exact_outcome_model(*outcome)),
{
    let mut out: Vec<u8> = Vec::new();
    match outcome {
        ExactRetrievalOutcome::Matches { matches, scanned_candidates } => {
            let ghost ms = exact_match_pairs(matches@);
            out.push(1);
            push_u64_le(&mut out, *scanned_candidates);
            push_u64_le(&mut out, matches.len() as u64);
            let ghost start = out@;
            let mut i: usize = 0;
            proof {
                assert(ms.subrange(0, 0) =~= Seq::<(Seq<u8>, i64)>::empty());
                assert(exact_outcome_model(*outcome) == (ExactOutcomeModel::Matches {
                    matches: ms,
                    scanned_candidates: *scanned_candidates,
                }));
                assert(outcome_keys_fit(exact_outcome_model(*outcome)));
                assert forall|j: int| 0 <= j < ms.len() implies (#[trigger] ms[j]).0.len() <= MAX_KEY_BYTES by {
                    let mm = exact_outcome_model(*outcome)->matches;
                    assert(mm == ms);
                    assert(mm[j].0.len() <= MAX_KEY_BYTES);
                }
            }
            while i < matches.len()
                invariant
                    ms == exact_match_pairs(matches@),
                    forall|j: int| 0 <= j < ms.len() ==> (#[trigger] ms[j]).0.len() <= MAX_KEY_BYTES,
                    i <= ms.len(),
                    out@ == start + matches_bytes(ms.subrange(0, i as int)),
                decreases ms.len() - i,
            {
                let m = &matches[i];
                proof {
                    assert(ms[i as int] == (m.key@, m.score_nanos));
                }
                push_u32_le(&mut out, m.key.len() as u32);
                extend(&mut out, m.key.as_slice());
                push_i64_le(&mut out, m.score_nanos);
                proof {
                    let v = ms.subrange(0, i + 1);
                    assert(v.drop_last() =~= ms.subrange(0, i as int));
                    assert(v.last() == ms[i as int]);
                    assert(out@ =~= start + matches_bytes(v));
                }
                i = i + 1;
            }
            proof {
                assert(ms.subrange(0, ms.len() as int) =~= ms);
                assert(out@ =~= exact_outcome_bytes(exact_outcome_model(*outcome)));
            }
        },
        ExactRetrievalOutcome::Abstained(a) => {
            out.push(2);
            push_u64_le(&mut out, a.scanned_candidates);
            let tag: u8 = match a.reason {
                ExactAbstentionReason::NoCandidates => 1,
                ExactAbstentionReason::BelowThreshold => 2,
                ExactAbstentionReason::Ambiguous => 3,
            };
            out.push(tag);
            push_optional_score(&mut out, a.best_score_nanos);
            push_optional_score(&mut out, a.runner_up_score_nanos);
            proof {
                assert(out@ =~= exact_outcome_bytes(exact_outcome_model(*outcome)));
            }
        },
    }
    out
}

// ---------------------------------------------------------------------------
// Exact-retrieval proofs.

/// Mathematical model of an exact-retrieval proof.
pub struct ExactProofModel {
    pub anchor: RetrievalProofAnchor,
    pub semantics_version: u16,
    pub request: ExactRequestModel,
    pub outcome: ExactOutcomeModel,
    pub proof_digest: Seq<u8>,
}

/// The payload of an exact proof.
pub open spec fn exact_proof_payload(m: ExactProofModel) -> Seq<u8> {
    proof_payload(exact_request_bytes(m.request), exact_outcome_bytes(m.outcome))
}

/// The canonical bytes of an exact proof.
pub open spec fn exact_proof_bytes(m: ExactProofModel) -> Seq<u8> {
    proof_envelope(EXACT_OPERATION, m.semantics_version, m.anchor, exact_proof_payload(m))
}

/// Why an exact proof cannot be encoded, checked in order: anchor,
/// semantics, request, outcome, size.
pub open spec fn exact_proof_fault(m: ExactProofModel) -> Option<RetrievalProofError> {
    if !anchor_canonical(m.anchor) {
        Some(RetrievalProofError::Invalid { reason: "noncanonical checkpoint identity" })
    } else if m.semantics_version != EXACT_RETRIEVAL_SEMANTICS_VERSION {
        Some(
            RetrievalProofError::UnsupportedSemantics {
                found: m.semantics_version,
                supported: EXACT_RETRIEVAL_SEMANTICS_VERSION,
            },
        )
    } else if request_check(m.request) is Err {
        Some(RetrievalProofError::Retrieval(request_check(m.request)->Err_0))
    } else if outcome_fault(m.request.limit, m.outcome) is Some {
        Some(RetrievalProofError::Invalid { reason: outcome_fault(m.request.limit, m.outcome)->Some_0 })
    } else {
        envelope_size_fault(exact_proof_payload(m).len() as int)
    }
}

/// A complete exact proof: a decodable request, nothing that prevents
/// encoding, and the digest that its own bytes carry.
pub open spec fn exact_proof_valid(m: ExactProofModel) -> bool {
    &&& request_shape(m.request)
    &&& exact_proof_fault(m) is None
    &&& m.proof_digest == exact_proof_bytes(m).subrange(100, 132)
}

/// Canonical exact-retrieval proof with embedded request and outcome.
#[derive(Clone, Debug, PartialEq, Eq)]
pub struct ExactRetrievalProof {
    pub(crate) anchor: RetrievalProofAnchor,
    pub(crate) semantics_version: u16,
    pub(crate) request: ExactRetrievalRequest,
    pub(crate) outcome: ExactRetrievalOutcome,
    pub(crate) proof_digest: [u8; 32],
}

impl View for ExactRetrievalProof {
    type V = ExactProofModel;

    closed spec fn view(&self) -> ExactProofModel {
        ExactProofModel {
            anchor: self.anchor,
            semantics_version: self.semantics_version,
            request: exact_request_model(self.request),
            outcome: exact_outcome_model(self.outcome),
            proof_digest: self.proof_digest@,
        }
    }
}

/// The 32 bytes at `pos`.
pub(crate) fn digest_at(b: &[u8], pos: usize) -> (r: [u8; 32])
    requires
        pos + 32 <= b@.len(),
    ensures
        r@ == b@.subrange(pos as int, pos + 32),
{
    let r = [
        b[pos], b[pos + 1], b[pos + 2], b[pos + 3], b[pos + 4], b[pos + 5], b[pos + 6], b[pos + 7],
        b[pos + 8], b[pos + 9], b[pos + 10], b[pos + 11], b[pos + 12], b[pos + 13], b[pos + 14],
        b[pos + 15], b[pos + 16], b[pos + 17], b[pos + 18], b[pos + 19], b[pos + 20], b[pos + 21],
        b[pos + 22], b[pos + 23], b[pos + 24], b[pos + 25], b[pos + 26], b[pos + 27], b[pos + 28],
        b[pos + 29], b[pos + 30], b[pos + 31],
    ];
    proof {
        assert(r@ =~= b@.subrange(pos as int, pos + 32));
    }
    r
}

pub(crate) fn validate_anchor(anchor: &RetrievalProofAnchor) -> (r: Result<(), RetrievalProofError>)
    ensures
        anchor_canonical(*anchor) ==> r is Ok,
        !anchor_canonical(*anchor) ==> r == Err::<(), RetrievalProofError>(
            RetrievalProofError::Invalid { reason: "noncanonical checkpoint identity" },
        ),
{
    if (anchor.checkpoint_sequence == 0) != anchor.checkpoint_digest.is_none() {
        return Err(RetrievalProofError::Invalid { reason: "noncanonical checkpoint identity" });
    }
    Ok(())
}

/// Checks an embedded request's own parameters as exact retrieval does.
pub(crate) fn check_request(request: &ExactRetrievalRequest) -> (r: Result<(), RetrievalProofError>)
    ensures
        match request_check(exact_request_model(*request)) {
            Ok(()) => r is Ok,
            Err(e) => r == Err::<(), RetrievalProofError>(RetrievalProofError::Retrieval(e)),
        },
{
    let limits = crate::canonical::ExactRetrievalLimits {
        max_candidates: u64::MAX,
        max_candidate_bytes: u64::MAX,
        max_returned: usize::MAX,
        timeout_nanos: 1_000_000_000,
    };
    match crate::canonical::validate_request(request, &limits) {
        Ok(()) => Ok(()),
        Err(e) => Err(RetrievalProofError::Retrieval(e)),
    }
}

/// Encodes an exact proof after checking each embedded part.
fn encode_exact_proof(proof: &ExactRetrievalProof) -> (r: Result<Vec<u8>, RetrievalProofError>)
    ensures
        match exact_proof_fault(proof@) {
            Some(e) => r == Err::<Vec<u8>, RetrievalProofError>(e),
            None => r matches Ok(b) && b@ == exact_proof_bytes(proof@),
        },
{
    let ghost m = proof@;
    match validate_anchor(&proof.anchor) {
        Ok(()) => {},
        Err(e) => {
            return Err(e);
        },
    }
    if proof.semantics_version != EXACT_RETRIEVAL_SEMANTICS_VERSION {
        return Err(
            RetrievalProofError::UnsupportedSemantics {
                found: proof.semantics_version,
                supported: EXACT_RETRIEVAL_SEMANTICS_VERSION,
            },
        );
    }
    match check_request(&proof.request) {
        Ok(()) => {},
        Err(e) => {
            return Err(e);
        },
    }
    match validate_outcome(proof.request.limit, &proof.outcome) {
        Ok(()) => {},
        Err(e) => {
            return Err(e);
        },
    }
    proof {
        if m.outcome is Matches {
            lemma_matches_fault_none(m.outcome->matches, 0);
        }
    }
    let request = encode_request(&proof.request);
    let outcome = encode_outcome(&proof.outcome);
    encode_envelope(EXACT_OPERATION, proof.semantics_version, &proof.anchor, request.as_slice(), outcome.as_slice())
}

impl ExactRetrievalProof {
    /// Creates a canonical exact proof over a format-2 snapshot: the
    /// embedded parts are checked, and the proof carries the digest of its
    /// own canonical bytes.
    pub fn new(
        snapshot: &SnapshotInfo,
        request: ExactRetrievalRequest,
        outcome: ExactRetrievalOutcome,
    ) -> (r: Result<Self, RetrievalProofError>)
        ensures
            snapshot.disk_format_version != 2 ==> r == Err::<Self, RetrievalProofError>(
                RetrievalProofError::SnapshotFormatMismatch,
            ),
            snapshot.disk_format_version == 2 ==> ({
                let draft = ExactProofModel {
                    anchor: RetrievalProofAnchor {
                        checkpoint_sequence: snapshot.checkpoint_sequence,
                        checkpoint_digest: snapshot.checkpoint_digest,
                        snapshot_digest: snapshot.snapshot_digest,
                    },
                    semantics_version: EXACT_RETRIEVAL_SEMANTICS_VERSION,
                    request: exact_request_model(request),
                    outcome: exact_outcome_model(outcome),
                    proof_digest: zero_digest(),
                };
                match exact_proof_fault(draft) {
                    Some(e) => r == Err::<Self, RetrievalProofError>(e),
                    None => r matches Ok(p) && p@ == (ExactProofModel {
                        proof_digest: exact_proof_bytes(draft).subrange(100, 132),
                        ..draft
                    }) && exact_proof_valid(p@),
                }
            }),
    {
        if snapshot.disk_format_version != 2 {
            return Err(RetrievalProofError::SnapshotFormatMismatch);
        }
        let name = request.vector_space.as_str();
        let _values = request.query.as_slice();
        proof {
            vstd::utf8::encode_utf8_valid_utf8(name@);
        }
        let mut proof = ExactRetrievalProof {
            anchor: RetrievalProofAnchor::from_snapshot(snapshot),
            semantics_version: EXACT_RETRIEVAL_SEMANTICS_VERSION,
            request,
            outcome,
            proof_digest: [0u8; 32],
        };
        proof {
            assert(proof@.proof_digest =~= zero_digest());
        }
        let encoded = match encode_exact_proof(&proof) {
            Ok(b) => b,
            Err(e) => {
                return Err(e);
            },
        };
        proof.proof_digest = digest_at(encoded.as_slice(), 100);
        Ok(proof)
    }

    /// Encodes the complete proof into canonical portable bytes.
    pub fn to_bytes(&self) -> (r: Result<Vec<u8>, RetrievalProofError>)
        ensures
            match exact_proof_fault(self@) {
                Some(e) => r == Err::<Vec<u8>, RetrievalProofError>(e),
                None => r matches Ok(b) && b@ == exact_proof_bytes(self@),
            },
    {
        encode_exact_proof(self)
    }

    /// Returns the exact snapshot/log anchor.
    pub fn anchor(&self) -> (r: &RetrievalProofAnchor)
        ensures
            *r == self@.anchor,
    {
        &self.anchor
    }

    /// Returns the caller-pinnable anchor digest.
    pub fn anchor_digest(&self) -> (r: [u8; 32])
        ensures
            r == blake3_hash(anchor_domain() + anchor_identity_bytes(self@.anchor)),
    {
        self.anchor.digest()
    }

    /// Returns the bound exact-retrieval semantics version.
    pub fn semantics_version(&self) -> (r: u16)
        ensures
            r == self@.semantics_version,
    {
        self.semantics_version
    }

    /// Returns the complete proven request.
    pub fn request(&self) -> (r: &ExactRetrievalRequest)
        ensures
            exact_request_model(*r) == self@.request,
    {
        &self.request
    }

    /// Returns the complete proven outcome.
    pub fn outcome(&self) -> (r: &ExactRetrievalOutcome)
        ensures
            exact_outcome_model(*r) == self@.outcome,
    {
        &self.outcome
    }

    /// Returns the digest of the complete canonical proof bytes.
    pub fn proof_digest(&self) -> (r: [u8; 32])
        ensures
            r@ == self@.proof_digest,
    {
        self.proof_digest
    }
}

// ---------------------------------------------------------------------------
// Reading integers back.

pub(crate) proof fn lemma_le_u16_bytes(b: Seq<u8>)
    requires
        b.len() == 2,
    ensures
        u16_le(le_u16(b)) == b,
{
    let (b0, b1) = (b[0], b[1]);
    let x = le_u16(b);
    assert(x as u8 == b0 && (x >> 8u16) as u8 == b1) by (bit_vector)
        requires
            x == (b0 as u16) | ((b1 as u16) << 8u16),
    ;
    assert(u16_le(x) =~= b);
}

pub(crate) proof fn lemma_le_u32_bytes(b: Seq<u8>)
    requires
        b.len() == 4,
    ensures
        u32_le(le_u32(b)) == b,
{
    let (b0, b1, b2, b3) = (b[0], b[1], b[2], b[3]);
    let x = le_u32(b);
    assert(x as u8 == b0 && (x >> 8u32) as u8 == b1 && (x >> 16u32) as u8 == b2 && (x >> 24u32) as u8
        == b3) by (bit_vector)
        requires
            x == (b0 as u32) | ((b1 as u32) << 8u32) | ((b2 as u32) << 16u32) | ((b3 as u32) << 24u32),
    ;
    assert(u32_le(x) =~= b);
}

pub(crate) proof fn lemma_i16_bits(x: u16, y: i16)
    ensures
        (x as i16) as u16 == x,
        (y as u16) as i16 == y,
{
    assert((x as i16) as u16 == x) by (bit_vector);
    assert((y as u16) as i16 == y) by (bit_vector);
}

proof fn lemma_i16s_le_len(v: Seq<i16>)
    ensures
        i16s_le(v).len() == 2 * v.len(),
    decreases v.len(),
{
    if v.len() > 0 {
        lemma_i16s_le_len(v.drop_last());
    }
}

proof fn lemma_i16s_le_injective(a: Seq<i16>, b: Seq<i16>)
    requires
        a.len() == b.len(),
        i16s_le(a) == i16s_le(b),
    ensures
        a == b,
    decreases a.len(),
{
    if a.len() > 0 {
        lemma_i16s_le_len(a.drop_last());
        lemma_i16s_le_len(b.drop_last());
        let n = 2 * (a.len() - 1);
        assert(i16s_le(a).subrange(0, n) =~= i16s_le(a.drop_last()));
        assert(i16s_le(b).subrange(0, n) =~= i16s_le(b.drop_last()));
        lemma_i16s_le_injective(a.drop_last(), b.drop_last());
        assert(i16s_le(a).subrange(n, n + 2) =~= i16_le(a.last()));
        assert(i16s_le(b).subrange(n, n + 2) =~= i16_le(b.last()));
        lemma_u16_le_round_trip(a.last() as u16);
        lemma_u16_le_round_trip(b.last() as u16);
        lemma_i16_bits(0, a.last());
        lemma_i16_bits(0, b.last());
        assert(a =~= a.drop_last().push(a.last()));
        assert(b =~= b.drop_last().push(b.last()));
    }
}

/// Reads `count` little-endian 16-bit elements at `pos`.
fn read_i16s(b: &[u8], pos: usize, count: usize) -> (r: Vec<i16>)
    requires
        pos + 2 * count <= b@.len(),
    ensures
        r@.len() == count,
        i16s_le(r@) == b@.subrange(pos as int, pos + 2 * count),
{
    let length = b.len();
    let mut out: Vec<i16> = Vec::new();
    let mut i: usize = 0;
    proof {
        assert(b@.subrange(pos as int, pos as int) =~= Seq::<u8>::empty());
    }
    while i < count
        invariant
            length == b@.len(),
            pos + 2 * count <= b@.len(),
            i <= count,
            out@.len() == i,
            i16s_le(out@) == b@.subrange(pos as int, pos + 2 * i),
        decreases count - i,
    {
        let x = read_u16_le(b, pos + 2 * i);
        let ghost before = out@;
        out.push(#[verifier::truncate] (x as i16));
        proof {
            let chunk = b@.subrange(pos + 2 * i, pos + 2 * i + 2);
            lemma_le_u16_bytes(chunk);
            lemma_i16_bits(x, 0);
            assert(out@.drop_last() =~= before);
            assert(i16_le(#[verifier::truncate] (x as i16)) == chunk);
            assert(b@.subrange(pos as int, pos + 2 * (i + 1)) =~= b@.subrange(pos as int, pos + 2 * i) + chunk);
        }
        i = i + 1;
    }
    out
}

// ---------------------------------------------------------------------------
// Decoding exact requests.

/// `m` is a decodable request whose canonical bytes are `region`.
pub open spec fn request_encodes(m: ExactRequestModel, region: Seq<u8>) -> bool {
    request_shape(m) && exact_request_bytes(m) == region
}

proof fn lemma_request_layout(m: ExactRequestModel)
    requires
        request_shape(m),
    ensures
        ({
            let b = exact_request_bytes(m);
            let n = m.name.len() as int;
            let d = m.query.len() as int;
            &&& n <= 128 && 1 <= d <= 4096
            &&& b.len() == 28 + n + 2 * d
            &&& le_u16(b.subrange(0, 2)) == n
            &&& b.subrange(2, 2 + n) == m.name
            &&& le_u16(b.subrange(2 + n, 4 + n)) == d
            &&& b.subrange(4 + n, 4 + n + 2 * d) == i16s_le(m.query)
            &&& le_u64(b.subrange(4 + n + 2 * d, 12 + n + 2 * d)) == m.limit
            &&& le_u64(b.subrange(12 + n + 2 * d, 20 + n + 2 * d)) as i64 == m.minimum_score_nanos
            &&& le_u64(b.subrange(20 + n + 2 * d, 28 + n + 2 * d)) == m.minimum_margin_nanos
        }),
{
    let b = exact_request_bytes(m);
    let n = m.name.len() as int;
    let d = m.query.len() as int;
    lemma_i16s_le_len(m.query);
    assert(b.subrange(0, 2) =~= u16_le(n as u16));
    assert(b.subrange(2, 2 + n) =~= m.name);
    assert(b.subrange(2 + n, 4 + n) =~= u16_le(d as u16));
    assert(b.subrange(4 + n, 4 + n + 2 * d) =~= i16s_le(m.query));
    assert(b.subrange(4 + n + 2 * d, 12 + n + 2 * d) =~= u64_le(m.limit as u64));
    assert(b.subrange(12 + n + 2 * d, 20 + n + 2 * d) =~= u64_le(m.minimum_score_nanos as u64));
    assert(b.subrange(20 + n + 2 * d, 28 + n + 2 * d) =~= u64_le(m.minimum_margin_nanos));
    lemma_u16_le_round_trip(n as u16);
    lemma_u16_le_round_trip(d as u16);
    lemma_u64_le_round_trip(m.limit as u64);
    lemma_u64_le_round_trip(m.minimum_score_nanos as u64);
    lemma_u64_le_round_trip(m.minimum_margin_nanos);
    crate::document::lemma_i64_bits(0, m.minimum_score_nanos);
}

proof fn lemma_request_injective(a: ExactRequestModel, b: ExactRequestModel, region: Seq<u8>)
    requires
        request_encodes(a, region),
        request_encodes(b, region),
    ensures
        a == b,
{
    lemma_request_layout(a);
    lemma_request_layout(b);
    let n = a.name.len() as int;
    let d = a.query.len() as int;
    assert(a.name =~= b.name);
    lemma_i16s_le_injective(a.query, b.query);
    crate::document::lemma_i64_bits(0, a.minimum_score_nanos);
}

/// Reads a length-prefixed canonical space name at `pos`; `reason` names
/// bytes that are not UTF-8.
pub(crate) fn read_space_name(b: &[u8], pos: usize, end: usize, reason: &'static str) -> (r: Result<(crate::shared::VectorSpaceName, usize), RetrievalProofError>)
    requires
        pos <= end <= b@.len(),
    ensures
        r matches Ok((n, next)) ==> pos <= next <= end && b@.subrange(pos as int, next as int) == name_field(n@)
            && valid_utf8(n@) && is_canonical_space_name(n@),
        forall|name: Seq<u8>|
            valid_utf8(name) && is_canonical_space_name(name) && pos + 2 + name.len() <= end && #[trigger] name_field(
                name,
            ) == b@.subrange(pos as int, pos + 2 + name.len()) ==> (r matches Ok((n, next)) && n@ == name && next
                == pos + 2 + name.len()),
{
    if end - pos < 2 {
        return Err(RetrievalProofError::Invalid { reason: "truncated payload" });
    }
    let name_len = read_u16_le(b, pos) as usize;
    let p1 = pos + 2;
    proof {
        assert forall|name: Seq<u8>|
            is_canonical_space_name(name) && pos + 2 + name.len() <= end && #[trigger] name_field(name)
                == b@.subrange(pos as int, pos + 2 + name.len()) implies name_len == name.len() && b@.subrange(
            p1 as int,
            p1 + name_len,
        ) == name by {
            assert(b@.subrange(pos as int, pos + 2) =~= name_field(name).subrange(0, 2));
            assert(name_field(name).subrange(0, 2) =~= u16_le(name.len() as u16));
            lemma_u16_le_round_trip(name.len() as u16);
            assert(b@.subrange(p1 as int, p1 + name_len) =~= name_field(name).subrange(2, 2 + name.len() as int));
            assert(name_field(name).subrange(2, 2 + name.len() as int) =~= name);
        }
    }
    if end - p1 < name_len {
        return Err(RetrievalProofError::Invalid { reason: "truncated payload" });
    }
    let name_bytes = copy_range(b, p1, p1 + name_len);
    let text = match utf8_text(name_bytes.as_slice()) {
        Some(t) => t,
        None => {
            return Err(RetrievalProofError::Invalid { reason });
        },
    };
    let vector_space = match crate::shared::VectorSpaceName::new(text.as_str()) {
        Ok(n) => n,
        Err(e) => {
            return Err(RetrievalProofError::Vector(e));
        },
    };
    let next = p1 + name_len;
    proof {
        vstd::utf8::encode_utf8_valid_utf8(text@);
        lemma_le_u16_bytes(b@.subrange(pos as int, pos + 2));
        assert(b@.subrange(pos as int, next as int) =~= name_field(vector_space@));
    }
    Ok((vector_space, next))
}

/// Reads a dimension-prefixed canonical query at `pos`.
fn read_query(b: &[u8], pos: usize, end: usize) -> (r: Result<(crate::shared::Q15Vector, usize), RetrievalProofError>)
    requires
        pos <= end <= b@.len(),
    ensures
        r matches Ok((q, next)) ==> pos <= next <= end && b@.subrange(pos as int, next as int) == query_field(q@)
            && is_canonical_q15(q@),
        forall|v: Seq<i16>|
            is_canonical_q15(v) && pos + 2 + 2 * v.len() <= end && #[trigger] query_field(v) == b@.subrange(
                pos as int,
                pos + 2 + 2 * v.len(),
            ) ==> (r matches Ok((q, next)) && q@ == v && next == pos + 2 + 2 * v.len()),
{
    if end - pos < 2 {
        return Err(RetrievalProofError::Invalid { reason: "truncated payload" });
    }
    let dimension = read_u16_le(b, pos);
    let count = dimension as usize;
    let p1 = pos + 2;
    proof {
        assert forall|v: Seq<i16>|
            is_canonical_q15(v) && pos + 2 + 2 * v.len() <= end && #[trigger] query_field(v) == b@.subrange(
                pos as int,
                pos + 2 + 2 * v.len(),
            ) implies count == v.len() && b@.subrange(p1 as int, p1 + 2 * count) == i16s_le(v) by {
            lemma_i16s_le_len(v);
            assert(b@.subrange(pos as int, pos + 2) =~= query_field(v).subrange(0, 2));
            assert(query_field(v).subrange(0, 2) =~= u16_le(v.len() as u16));
            lemma_u16_le_round_trip(v.len() as u16);
            assert(b@.subrange(p1 as int, p1 + 2 * count) =~= query_field(v).subrange(2, 2 + 2 * v.len() as int));
            assert(query_field(v).subrange(2, 2 + 2 * v.len() as int) =~= i16s_le(v));
        }
    }
    if (end - p1) / 2 < count {
        return Err(RetrievalProofError::Invalid { reason: "truncated payload" });
    }
    let values = read_i16s(b, p1, count);
    let ghost value_seq = values@;
    let query = match crate::shared::Q15Vector::new(values) {
        Ok(q) => q,
        Err(e) => {
            proof {
                assert forall|v: Seq<i16>|
                    is_canonical_q15(v) && pos + 2 + 2 * v.len() <= end && #[trigger] query_field(v)
                        == b@.subrange(pos as int, pos + 2 + 2 * v.len()) implies false by {
                    lemma_i16s_le_injective(value_seq, v);
                }
            }
            return Err(RetrievalProofError::Vector(e));
        },
    };
    let next = p1 + 2 * count;
    proof {
        lemma_le_u16_bytes(b@.subrange(pos as int, pos + 2));
        assert(b@.subrange(pos as int, next as int) =~= query_field(query@));
        assert forall|v: Seq<i16>|
            is_canonical_q15(v) && pos + 2 + 2 * v.len() <= end && #[trigger] query_field(v) == b@.subrange(
                pos as int,
                pos + 2 + 2 * v.len(),
            ) implies query@ == v by {
            lemma_i16s_le_injective(value_seq, v);
        }
    }
    Ok((query, next))
}

/// Reads the fixed-width request parameters that end the request at `end`.
fn read_request_tail(b: &[u8], pos: usize, end: usize) -> (r: Result<(usize, i64, u64), RetrievalProofError>)
    requires
        pos <= end <= b@.len(),
    ensures
        r matches Ok((l, s, m)) ==> b@.subrange(pos as int, end as int) == tail_bytes(l, s, m),
        forall|l: usize, s: i64, m: u64| #[trigger] tail_bytes(l, s, m) == b@.subrange(pos as int, end as int) ==> r
            == Ok::<(usize, i64, u64), RetrievalProofError>((l, s, m)),
{
    proof {
        assert forall|l: usize, s: i64, m: u64| #[trigger] tail_bytes(l, s, m) == b@.subrange(pos as int, end as int)
            implies end - pos == 24 && le_u64(b@.subrange(pos as int, pos + 8)) == l && le_u64(
            b@.subrange(pos + 8, pos + 16),
        ) as i64 == s && le_u64(b@.subrange(pos + 16, pos + 24)) == m by {
            let t = tail_bytes(l, s, m);
            assert(t.len() == 24);
            assert(t.subrange(0, 8) =~= u64_le(l as u64));
            assert(t.subrange(8, 16) =~= u64_le(s as u64));
            assert(t.subrange(16, 24) =~= u64_le(m));
            assert(b@.subrange(pos as int, pos + 8) =~= t.subrange(0, 8));
            assert(b@.subrange(pos + 8, pos + 16) =~= t.subrange(8, 16));
            assert(b@.subrange(pos + 16, pos + 24) =~= t.subrange(16, 24));
            lemma_u64_le_round_trip(l as u64);
            lemma_u64_le_round_trip(s as u64);
            lemma_u64_le_round_trip(m);
            crate::document::lemma_i64_bits(0, s);
        }
    }
    if end - pos < 8 {
        return Err(RetrievalProofError::Invalid { reason: "truncated payload" });
    }
    let limit = read_u64_le(b, pos);
    if limit > usize::MAX as u64 {
        return Err(RetrievalProofError::LengthOverflow);
    }
    if end - pos < 16 {
        return Err(RetrievalProofError::Invalid { reason: "truncated payload" });
    }
    let score_bits = read_u64_le(b, pos + 8);
    if end - pos < 24 {
        return Err(RetrievalProofError::Invalid { reason: "truncated payload" });
    }
    let margin = read_u64_le(b, pos + 16);
    if end - pos != 24 {
        return Err(RetrievalProofError::Invalid { reason: "trailing payload bytes" });
    }
    proof {
        crate::document::lemma_le_u64_bytes(b@.subrange(pos as int, pos + 8));
        crate::document::lemma_le_u64_bytes(b@.subrange(pos + 8, pos + 16));
        crate::document::lemma_le_u64_bytes(b@.subrange(pos + 16, pos + 24));
        crate::document::lemma_i64_bits(score_bits, 0);
        assert(b@.subrange(pos as int, end as int) =~= tail_bytes(limit as usize, score_bits as i64, margin));
    }
    Ok((limit as usize, score_bits as i64, margin))
}

/// Decodes the canonical bytes of a request from `b[start..end]`.
#[verifier::rlimit(60)]
/// Decodes the canonical bytes of a request from `b[start..end]`.
pub(crate) fn decode_request(b: &[u8], start: usize, end: usize) -> (r: Result<ExactRetrievalRequest, RetrievalProofError>)
    requires
        start <= end <= b@.len(),
    ensures
        r matches Ok(q) ==> request_encodes(exact_request_model(q), b@.subrange(start as int, end as int)),
        forall|m: ExactRequestModel| #[trigger] request_encodes(m, b@.subrange(start as int, end as int)) ==> (
        r matches Ok(q) && exact_request_model(q) == m),
{
    let ghost region = b@.subrange(start as int, end as int);
    let ghost has = exists|m: ExactRequestModel| #[trigger] request_encodes(m, region);
    let ghost expected = choose|m: ExactRequestModel| #[trigger] request_encodes(m, region);
    proof {
        if has {
            lemma_i16s_le_len(expected.query);
            let nf = name_field(expected.name);
            let qf = query_field(expected.query);
            let tl = tail_bytes(expected.limit, expected.minimum_score_nanos, expected.minimum_margin_nanos);
            assert(region == nf + qf + tl);
            assert(nf.len() == 2 + expected.name.len());
            assert(qf.len() == 2 + 2 * expected.query.len());
            assert(tl.len() == 24);
            assert(region.len() == nf.len() + qf.len() + tl.len());
            assert(b@.subrange(start as int, start + nf.len()) =~= region.subrange(0, nf.len() as int));
            assert(region.subrange(0, nf.len() as int) =~= nf);
        }
    }
    let (vector_space, p2) = match read_space_name(b, start, end, "vector-space name is not UTF-8") {
        Ok(found) => found,
        Err(e) => {
            return Err(e);
        },
    };
    proof {
        if has {
            let nf = name_field(expected.name);
            let qf = query_field(expected.query);
            assert(b@.subrange(p2 as int, p2 + qf.len()) =~= region.subrange(nf.len() as int, (nf.len() + qf.len()) as int));
            assert(region.subrange(nf.len() as int, (nf.len() + qf.len()) as int) =~= qf);
        }
    }
    let (query, p4) = match read_query(b, p2, end) {
        Ok(found) => found,
        Err(e) => {
            return Err(e);
        },
    };
    proof {
        if has {
            let nf = name_field(expected.name);
            let qf = query_field(expected.query);
            let tl = tail_bytes(expected.limit, expected.minimum_score_nanos, expected.minimum_margin_nanos);
            assert(b@.subrange(p4 as int, end as int) =~= region.subrange((nf.len() + qf.len()) as int, region.len() as int));
            assert(region.subrange((nf.len() + qf.len()) as int, region.len() as int) =~= tl);
        }
    }
    let (limit, minimum_score_nanos, minimum_margin_nanos) = match read_request_tail(b, p4, end) {
        Ok(found) => found,
        Err(e) => {
            return Err(e);
        },
    };
    let request = ExactRetrievalRequest { vector_space, query, limit, minimum_score_nanos, minimum_margin_nanos };
    proof {
        let q = exact_request_model(request);
        assert(region =~= b@.subrange(start as int, p2 as int) + b@.subrange(p2 as int, p4 as int) + b@.subrange(
            p4 as int,
            end as int,
        ));
        assert(region =~= exact_request_bytes(q));
        assert(request_encodes(q, region));
        assert forall|m: ExactRequestModel| #[trigger] request_encodes(m, region) implies q == m by {
            lemma_request_injective(q, m, region);
        }
    }
    Ok(request)
}

// ---------------------------------------------------------------------------
// Decoding exact outcomes.

/// An outcome that decoding can produce: every key length fits 32 bits and
/// the match count fits a `usize`.
pub open spec fn outcome_shape(m: ExactOutcomeModel) -> bool {
    m matches ExactOutcomeModel::Matches { matches, .. } ==> {
        &&& matches.len() <= usize::MAX
        &&& forall|i: int| 0 <= i < matches.len() ==> (#[trigger] matches[i]).0.len() <= u32::MAX
    }
}

/// `m` is a decodable outcome whose canonical bytes are `region`.
pub open spec fn outcome_encodes(m: ExactOutcomeModel, region: Seq<u8>) -> bool {
    outcome_shape(m) && exact_outcome_bytes(m) == region
}

proof fn lemma_matches_bytes_concat(a: Seq<(Seq<u8>, i64)>, b: Seq<(Seq<u8>, i64)>)
    ensures
        matches_bytes(a + b) == matches_bytes(a) + matches_bytes(b),
    decreases b.len(),
{
    if b.len() == 0 {
        assert(a + b =~= a);
        assert(matches_bytes(a) + matches_bytes(b) =~= matches_bytes(a));
    } else {
        lemma_matches_bytes_concat(a, b.drop_last());
        assert((a + b).drop_last() =~= a + b.drop_last());
        assert((a + b).last() == b.last());
        assert(matches_bytes(a + b) =~= matches_bytes(a) + matches_bytes(b));
    }
}

proof fn lemma_match_bytes_layout(p: (Seq<u8>, i64))
    requires
        p.0.len() <= u32::MAX,
    ensures
        ({
            let b = match_bytes(p);
            let k = p.0.len() as int;
            &&& b.len() == 12 + k
            &&& le_u32(b.subrange(0, 4)) == k
            &&& b.subrange(4, 4 + k) == p.0
            &&& le_u64(b.subrange(4 + k, 12 + k)) as i64 == p.1
        }),
{
    let b = match_bytes(p);
    let k = p.0.len() as int;
    assert(b.subrange(0, 4) =~= u32_le(k as u32));
    assert(b.subrange(4, 4 + k) =~= p.0);
    assert(b.subrange(4 + k, 12 + k) =~= u64_le(p.1 as u64));
    lemma_u32_le_round_trip(k as u32);
    lemma_u64_le_round_trip(p.1 as u64);
    crate::document::lemma_i64_bits(0, p.1);
}

proof fn lemma_match_bytes_injective(p: (Seq<u8>, i64), q: (Seq<u8>, i64), rest_p: Seq<u8>, rest_q: Seq<u8>)
    requires
        p.0.len() <= u32::MAX,
        q.0.len() <= u32::MAX,
        match_bytes(p) + rest_p == match_bytes(q) + rest_q,
    ensures
        p == q,
        rest_p == rest_q,
{
    let x = match_bytes(p) + rest_p;
    let kp = p.0.len() as int;
    let kq = q.0.len() as int;
    assert(x.subrange(0, 4) =~= u32_le(kp as u32));
    assert((match_bytes(q) + rest_q).subrange(0, 4) =~= u32_le(kq as u32));
    lemma_u32_le_round_trip(kp as u32);
    lemma_u32_le_round_trip(kq as u32);
    assert(kp == kq);
    assert(x.subrange(4, 4 + kp) =~= p.0);
    assert((match_bytes(q) + rest_q).subrange(4, 4 + kp) =~= q.0);
    assert(x.subrange(4 + kp, 12 + kp) =~= u64_le(p.1 as u64));
    assert((match_bytes(q) + rest_q).subrange(4 + kp, 12 + kp) =~= u64_le(q.1 as u64));
    lemma_u64_le_round_trip(p.1 as u64);
    lemma_u64_le_round_trip(q.1 as u64);
    crate::document::lemma_i64_bits(0, p.1);
    crate::document::lemma_i64_bits(0, q.1);
    assert(x.subrange(12 + kp, x.len() as int) =~= rest_p);
    assert((match_bytes(q) + rest_q).subrange(12 + kp, x.len() as int) =~= rest_q);
}

proof fn lemma_matches_bytes_single(p: (Seq<u8>, i64))
    ensures
        matches_bytes(seq![p]) == match_bytes(p),
{
    let one = seq![p];
    assert(one.drop_last() =~= Seq::<(Seq<u8>, i64)>::empty());
    assert(matches_bytes(one.drop_last()) == Seq::<u8>::empty());
    assert(matches_bytes(one) =~= match_bytes(p));
}

proof fn lemma_matches_bytes_injective(a: Seq<(Seq<u8>, i64)>, b: Seq<(Seq<u8>, i64)>)
    requires
        a.len() == b.len(),
        forall|i: int| 0 <= i < a.len() ==> (#[trigger] a[i]).0.len() <= u32::MAX,
        forall|i: int| 0 <= i < b.len() ==> (#[trigger] b[i]).0.len() <= u32::MAX,
        matches_bytes(a) == matches_bytes(b),
    ensures
        a == b,
    decreases a.len(),
{
    if a.len() > 0 {
        lemma_matches_bytes_concat(seq![a[0]], a.drop_first());
        lemma_matches_bytes_concat(seq![b[0]], b.drop_first());
        assert(seq![a[0]] + a.drop_first() =~= a);
        assert(seq![b[0]] + b.drop_first() =~= b);
        lemma_matches_bytes_single(a[0]);
        lemma_matches_bytes_single(b[0]);
        lemma_match_bytes_injective(a[0], b[0], matches_bytes(a.drop_first()), matches_bytes(b.drop_first()));
        lemma_matches_bytes_injective(a.drop_first(), b.drop_first());
        assert(a =~= b);
    }
}

proof fn lemma_matches_bytes_at(ms: Seq<(Seq<u8>, i64)>, i: int)
    requires
        0 <= i < ms.len(),
    ensures
        matches_bytes(ms) == matches_bytes(ms.take(i)) + match_bytes(ms[i]) + matches_bytes(ms.skip(i + 1)),
        ms.take(i + 1) == ms.take(i).push(ms[i]),
{
    lemma_matches_bytes_concat(ms.take(i + 1), ms.skip(i + 1));
    assert(ms.take(i + 1) + ms.skip(i + 1) =~= ms);
    assert(ms.take(i + 1).drop_last() =~= ms.take(i));
    assert(ms.take(i + 1) =~= ms.take(i).push(ms[i]));
}

/// Reads one match at `pos`: key length, key, score.
fn read_match(b: &[u8], pos: usize, end: usize) -> (r: Result<(ExactRetrievalMatch, usize), RetrievalProofError>)
    requires
        pos <= end <= b@.len(),
    ensures
        r matches Ok((m, next)) ==> pos < next <= end && m.key@.len() <= u32::MAX
            && b@.subrange(pos as int, next as int) == match_bytes((m.key@, m.score_nanos)),
        forall|p: (Seq<u8>, i64)|
            p.0.len() <= u32::MAX && pos + match_bytes(p).len() <= end && #[trigger] match_bytes(p)
                == b@.subrange(pos as int, pos + match_bytes(p).len()) ==> (r matches Ok((m, next)) && (
            m.key@, m.score_nanos) == p && next == pos + match_bytes(p).len()),
{
    if end - pos < 4 {
        proof {
            assert forall|p: (Seq<u8>, i64)|
                p.0.len() <= u32::MAX && pos + match_bytes(p).len() <= end implies false by {
                lemma_match_bytes_layout(p);
            }
        }
        return Err(RetrievalProofError::Invalid { reason: "truncated payload" });
    }
    let key_length = read_u32_le(b, pos) as usize;
    let p1 = pos + 4;
    if end - p1 < key_length {
        proof {
            assert forall|p: (Seq<u8>, i64)|
                p.0.len() <= u32::MAX && pos + match_bytes(p).len() <= end && #[trigger] match_bytes(p)
                    == b@.subrange(pos as int, pos + match_bytes(p).len()) implies false by {
                lemma_match_bytes_layout(p);
                assert(b@.subrange(pos as int, pos + 4) =~= match_bytes(p).subrange(0, 4));
            }
        }
        return Err(RetrievalProofError::Invalid { reason: "truncated payload" });
    }
    let key = copy_range(b, p1, p1 + key_length);
    let p2 = p1 + key_length;
    if end - p2 < 8 {
        proof {
            assert forall|p: (Seq<u8>, i64)|
                p.0.len() <= u32::MAX && pos + match_bytes(p).len() <= end && #[trigger] match_bytes(p)
                    == b@.subrange(pos as int, pos + match_bytes(p).len()) implies false by {
                lemma_match_bytes_layout(p);
                assert(b@.subrange(pos as int, pos + 4) =~= match_bytes(p).subrange(0, 4));
            }
        }
        return Err(RetrievalProofError::Invalid { reason: "truncated payload" });
    }
    let score_bits = read_u64_le(b, p2);
    let next = p2 + 8;
    let matched = ExactRetrievalMatch { key, score_nanos: score_bits as i64 };
    proof {
        let chunk = b@.subrange(pos as int, next as int);
        lemma_le_u32_bytes(b@.subrange(pos as int, pos + 4));
        crate::document::lemma_le_u64_bytes(b@.subrange(p2 as int, p2 + 8));
        crate::document::lemma_i64_bits(score_bits, 0);
        assert(chunk =~= match_bytes((matched.key@, matched.score_nanos)));
        assert forall|p: (Seq<u8>, i64)|
            p.0.len() <= u32::MAX && pos + match_bytes(p).len() <= end && #[trigger] match_bytes(p)
                == b@.subrange(pos as int, pos + match_bytes(p).len()) implies (matched.key@, matched.score_nanos)
            == p && next == pos + match_bytes(p).len() by {
            lemma_match_bytes_layout(p);
            let k = p.0.len() as int;
            assert(b@.subrange(pos as int, pos + 4) =~= match_bytes(p).subrange(0, 4));
            assert(key@ =~= match_bytes(p).subrange(4, 4 + k));
            assert(b@.subrange(p2 as int, p2 + 8) =~= match_bytes(p).subrange(4 + k, 12 + k));
        }
    }
    Ok((matched, next))
}

/// Every key length of the pairs fits 32 bits.
pub open spec fn keys_fit_u32(ms: Seq<(Seq<u8>, i64)>) -> bool {
    forall|i: int| 0 <= i < ms.len() ==> (#[trigger] ms[i]).0.len() <= u32::MAX
}

proof fn lemma_matches_bytes_push(ms: Seq<(Seq<u8>, i64)>, p: (Seq<u8>, i64))
    ensures
        matches_bytes(ms.push(p)) == matches_bytes(ms) + match_bytes(p),
{
    assert(ms.push(p).drop_last() =~= ms);
}

/// `e` holds `count` matches whose bytes stand in `b` from `pos`, before `end`.
pub open spec fn matches_fill(e: Seq<(Seq<u8>, i64)>, b: Seq<u8>, pos: int, end: int, count: int) -> bool {
    &&& e.len() == count
    &&& keys_fit_u32(e)
    &&& pos + matches_bytes(e).len() <= end
    &&& matches_bytes(e) == b.subrange(pos, pos + matches_bytes(e).len())
}

proof fn lemma_fill_step(
    e: Seq<(Seq<u8>, i64)>,
    b: Seq<u8>,
    pos: int,
    cur: int,
    end: int,
    count: int,
    i: int,
)
    requires
        matches_fill(e, b, pos, end, count),
        0 <= i < count,
        0 <= pos <= cur <= end <= b.len(),
        b.subrange(pos, cur) == matches_bytes(e.take(i)),
    ensures
        e[i].0.len() <= u32::MAX,
        cur + match_bytes(e[i]).len() <= end,
        match_bytes(e[i]) == b.subrange(cur, cur + match_bytes(e[i]).len()),
        e.take(i + 1) == e.take(i).push(e[i]),
{
    lemma_matches_bytes_at(e, i);
    let before = matches_bytes(e.take(i));
    let here = match_bytes(e[i]);
    let total = matches_bytes(e);
    assert(total.len() == before.len() + here.len() + matches_bytes(e.skip(i + 1)).len());
    assert(cur - pos == before.len());
    assert(b.subrange(cur, cur + here.len()) =~= total.subrange(before.len() as int, (before.len() + here.len()) as int));
    assert(total.subrange(before.len() as int, (before.len() + here.len()) as int) =~= here);
}

/// Reads `count` matches at `pos`.
fn read_matches(b: &[u8], pos: usize, end: usize, count: usize) -> (r: Result<(Vec<ExactRetrievalMatch>, usize), RetrievalProofError>)
    requires
        pos <= end <= b@.len(),
    ensures
        r matches Ok((ms, next)) ==> pos <= next <= end && ms@.len() == count && keys_fit_u32(exact_match_pairs(ms@))
            && b@.subrange(pos as int, next as int) == matches_bytes(exact_match_pairs(ms@)),
        forall|e: Seq<(Seq<u8>, i64)>| #[trigger] matches_fill(e, b@, pos as int, end as int, count as int) ==> (r matches Ok((ms, next))
            && exact_match_pairs(ms@) == e && next == pos + matches_bytes(e).len()),
{
    let mut matches: Vec<ExactRetrievalMatch> = Vec::new();
    let mut cur = pos;
    let mut i: usize = 0;
    proof {
        assert(b@.subrange(pos as int, pos as int) =~= Seq::<u8>::empty());
        assert(exact_match_pairs(matches@) =~= Seq::<(Seq<u8>, i64)>::empty());
        assert forall|e: Seq<(Seq<u8>, i64)>| #[trigger] matches_fill(e, b@, pos as int, end as int, count as int) implies exact_match_pairs(matches@) == e.take(0) by {
            assert(e.take(0) =~= Seq::<(Seq<u8>, i64)>::empty());
        }
    }
    while i < count
        invariant
            pos <= cur <= end <= b@.len(),
            i <= count,
            matches@.len() == i,
            keys_fit_u32(exact_match_pairs(matches@)),
            b@.subrange(pos as int, cur as int) == matches_bytes(exact_match_pairs(matches@)),
            forall|e: Seq<(Seq<u8>, i64)>| #[trigger] matches_fill(e, b@, pos as int, end as int, count as int) ==> exact_match_pairs(matches@) == e.take(i as int),
        decreases count - i,
    {
        let (matched, next) = match read_match(b, cur, end) {
            Ok(found) => found,
            Err(err) => {
                proof {
                    assert forall|e: Seq<(Seq<u8>, i64)>| #[trigger] matches_fill(e, b@, pos as int, end as int, count as int) implies false by {
                        lemma_fill_step(e, b@, pos as int, cur as int, end as int, count as int, i as int);
                    }
                }
                return Err(err);
            },
        };
        let ghost before = matches@;
        matches.push(matched);
        proof {
            let p = (matched.key@, matched.score_nanos);
            assert(exact_match_pairs(matches@) =~= exact_match_pairs(before).push(p));
            lemma_matches_bytes_push(exact_match_pairs(before), p);
            assert(b@.subrange(pos as int, next as int) =~= b@.subrange(pos as int, cur as int) + b@.subrange(cur as int, next as int));
            assert forall|e: Seq<(Seq<u8>, i64)>| #[trigger] matches_fill(e, b@, pos as int, end as int, count as int) implies exact_match_pairs(matches@) == e.take(i + 1) by {
                lemma_fill_step(e, b@, pos as int, cur as int, end as int, count as int, i as int);
            }
        }
        cur = next;
        i = i + 1;
    }
    proof {
        assert forall|e: Seq<(Seq<u8>, i64)>| #[trigger] matches_fill(e, b@, pos as int, end as int, count as int) implies exact_match_pairs(matches@) == e && cur == pos + matches_bytes(e).len() by {
            assert(e.take(count as int) =~= e);
        }
    }
    Ok((matches, cur))
}

/// Reads an optional score at `pos`.
pub(crate) fn read_optional_score(b: &[u8], pos: usize, end: usize) -> (r: Result<(Option<i64>, usize), RetrievalProofError>)
    requires
        pos <= end <= b@.len(),
    ensures
        r matches Ok((s, next)) ==> pos <= next <= end && b@.subrange(pos as int, next as int) == optional_score_bytes(s),
        forall|s: Option<i64>|
            pos + optional_score_bytes(s).len() <= end && #[trigger] optional_score_bytes(s) == b@.subrange(
                pos as int,
                pos + optional_score_bytes(s).len(),
            ) ==> r == Ok::<(Option<i64>, usize), RetrievalProofError>((s, (pos + optional_score_bytes(s).len()) as usize)),
{
    proof {
        assert forall|s: Option<i64>|
            pos + optional_score_bytes(s).len() <= end && #[trigger] optional_score_bytes(s) == b@.subrange(
                pos as int,
                pos + optional_score_bytes(s).len(),
            ) implies b@[pos as int] == (if s is Some { 1u8 } else { 0u8 }) && (s matches Some(x) ==> le_u64(
            b@.subrange(pos + 1, pos + 9),
        ) as i64 == x) by {
            assert(b@[pos as int] == optional_score_bytes(s)[0]);
            if s is Some {
                let x = s->Some_0;
                assert(b@.subrange(pos + 1, pos + 9) =~= optional_score_bytes(s).subrange(1, 9));
                assert(optional_score_bytes(s).subrange(1, 9) =~= u64_le(x as u64));
                lemma_u64_le_round_trip(x as u64);
                crate::document::lemma_i64_bits(0, x);
            }
        }
    }
    if end - pos < 1 {
        return Err(RetrievalProofError::Invalid { reason: "truncated payload" });
    }
    let tag = b[pos];
    if tag == 0 {
        proof {
            assert(b@.subrange(pos as int, pos + 1) =~= optional_score_bytes(None));
        }
        return Ok((None, pos + 1));
    }
    if tag != 1 {
        return Err(RetrievalProofError::Invalid { reason: "invalid optional score tag" });
    }
    if end - pos < 9 {
        return Err(RetrievalProofError::Invalid { reason: "truncated payload" });
    }
    let bits = read_u64_le(b, pos + 1);
    proof {
        crate::document::lemma_le_u64_bytes(b@.subrange(pos + 1, pos + 9));
        crate::document::lemma_i64_bits(bits, 0);
        assert(b@.subrange(pos as int, pos + 9) =~= optional_score_bytes(Some(bits as i64)));
    }
    Ok((Some(bits as i64), pos + 9))
}

pub(crate) proof fn lemma_optional_score_injective(x: Option<i64>, y: Option<i64>, rx: Seq<u8>, ry: Seq<u8>)
    requires
        optional_score_bytes(x) + rx == optional_score_bytes(y) + ry,
    ensures
        x == y,
        rx == ry,
{
    let bx = optional_score_bytes(x) + rx;
    let by = optional_score_bytes(y) + ry;
    assert(bx[0] == optional_score_bytes(x)[0]);
    assert(by[0] == optional_score_bytes(y)[0]);
    if x is Some {
        let vx = x->Some_0;
        let vy = y->Some_0;
        assert(bx.subrange(1, 9) =~= u64_le(vx as u64));
        assert(by.subrange(1, 9) =~= u64_le(vy as u64));
        lemma_u64_le_round_trip(vx as u64);
        lemma_u64_le_round_trip(vy as u64);
        crate::document::lemma_i64_bits(0, vx);
        crate::document::lemma_i64_bits(0, vy);
        assert(rx =~= bx.subrange(9, bx.len() as int));
        assert(ry =~= by.subrange(9, by.len() as int));
    } else {
        assert(rx =~= bx.subrange(1, bx.len() as int));
        assert(ry =~= by.subrange(1, by.len() as int));
    }
}

proof fn lemma_matches_outcome_injective(a: ExactOutcomeModel, b: ExactOutcomeModel, region: Seq<u8>)
    requires
        outcome_encodes(a, region),
        outcome_encodes(b, region),
        a is Matches,
        b is Matches,
    ensures
        a == b,
{
    let ma = a->matches;
    let mb = b->matches;
    let sa = a->Matches_scanned_candidates;
    let sb = b->Matches_scanned_candidates;
    assert(region.subrange(1, 9) =~= u64_le(sa));
    assert(region.subrange(1, 9) =~= u64_le(sb));
    assert(region.subrange(9, 17) =~= u64_le(ma.len() as u64));
    assert(region.subrange(9, 17) =~= u64_le(mb.len() as u64));
    lemma_u64_le_round_trip(sa);
    lemma_u64_le_round_trip(sb);
    lemma_u64_le_round_trip(ma.len() as u64);
    lemma_u64_le_round_trip(mb.len() as u64);
    assert(region.subrange(17, region.len() as int) =~= matches_bytes(ma));
    assert(region.subrange(17, region.len() as int) =~= matches_bytes(mb));
    lemma_matches_bytes_injective(ma, mb);
}

proof fn lemma_abstention_injective(x: ExactAbstention, y: ExactAbstention, region: Seq<u8>)
    requires
        exact_outcome_bytes(ExactOutcomeModel::Abstained(x)) == region,
        exact_outcome_bytes(ExactOutcomeModel::Abstained(y)) == region,
    ensures
        x == y,
{
    assert(region.subrange(1, 9) =~= u64_le(x.scanned_candidates));
    assert(region.subrange(1, 9) =~= u64_le(y.scanned_candidates));
    lemma_u64_le_round_trip(x.scanned_candidates);
    lemma_u64_le_round_trip(y.scanned_candidates);
    assert(region[9] == reason_tag(x.reason));
    assert(region[9] == reason_tag(y.reason));
    let rest = region.subrange(10, region.len() as int);
    assert(rest =~= optional_score_bytes(x.best_score_nanos) + optional_score_bytes(x.runner_up_score_nanos));
    assert(rest =~= optional_score_bytes(y.best_score_nanos) + optional_score_bytes(y.runner_up_score_nanos));
    lemma_optional_score_injective(
        x.best_score_nanos,
        y.best_score_nanos,
        optional_score_bytes(x.runner_up_score_nanos),
        optional_score_bytes(y.runner_up_score_nanos),
    );
    assert(optional_score_bytes(x.runner_up_score_nanos) + Seq::<u8>::empty() =~= optional_score_bytes(x.runner_up_score_nanos));
    assert(optional_score_bytes(y.runner_up_score_nanos) + Seq::<u8>::empty() =~= optional_score_bytes(y.runner_up_score_nanos));
    lemma_optional_score_injective(x.runner_up_score_nanos, y.runner_up_score_nanos, Seq::<u8>::empty(), Seq::<u8>::empty());
}

proof fn lemma_outcome_injective(a: ExactOutcomeModel, b: ExactOutcomeModel, region: Seq<u8>)
    requires
        outcome_encodes(a, region),
        outcome_encodes(b, region),
    ensures
        a == b,
{
    assert(region[0] == exact_outcome_bytes(a)[0]);
    assert(region[0] == exact_outcome_bytes(b)[0]);
    if a is Matches {
        lemma_matches_outcome_injective(a, b, region);
    } else {
        lemma_abstention_injective(a->Abstained_0, b->Abstained_0, region);
    }
}

/// Decodes a match outcome from `b[start..end]` whose tag byte is 1.
fn decode_matches_outcome(b: &[u8], start: usize, end: usize) -> (r: Result<ExactRetrievalOutcome, RetrievalProofError>)
    requires
        start + 9 <= end <= b@.len(),
        b@[start as int] == 1,
    ensures
        r matches Ok(o) ==> outcome_encodes(exact_outcome_model(o), b@.subrange(start as int, end as int)),
        forall|m: ExactOutcomeModel| #[trigger] outcome_encodes(m, b@.subrange(start as int, end as int)) ==> (
        r matches Ok(o) && exact_outcome_model(o) == m),
{
    let ghost region = b@.subrange(start as int, end as int);
    let ghost has = exists|m: ExactOutcomeModel| #[trigger] outcome_encodes(m, region);
    let ghost expected = choose|m: ExactOutcomeModel| #[trigger] outcome_encodes(m, region);
    proof {
        if has {
            assert(region[0] == exact_outcome_bytes(expected)[0]);
            assert(expected is Matches);
            let e = expected->matches;
            assert(region =~= seq![1u8] + u64_le(expected->Matches_scanned_candidates) + u64_le(e.len() as u64) + matches_bytes(e));
            assert(region.len() >= 17);
        }
    }
    let scanned = read_u64_le(b, start + 1);
    if end - start < 17 {
        return Err(RetrievalProofError::Invalid { reason: "truncated payload" });
    }
    let count64 = read_u64_le(b, start + 9);
    proof {
        assert(b@.subrange(start + 9, start + 17) =~= region.subrange(9, 17));
        if has {
            let e = expected->matches;
            assert(region.subrange(9, 17) =~= u64_le(e.len() as u64));
            lemma_u64_le_round_trip(e.len() as u64);
            assert(region.subrange(17, region.len() as int) =~= matches_bytes(e));
            assert(b@.subrange(start + 17, start + 17 + matches_bytes(e).len()) =~= region.subrange(17, region.len() as int));
            assert(matches_fill(e, b@, start + 17, end as int, e.len() as int));
        }
    }
    if count64 > usize::MAX as u64 {
        return Err(RetrievalProofError::LengthOverflow);
    }
    let count = count64 as usize;
    let (matches, next) = match read_matches(b, start + 17, end, count) {
        Ok(found) => found,
        Err(e) => {
            return Err(e);
        },
    };
    if next != end {
        return Err(RetrievalProofError::Invalid { reason: "trailing payload bytes" });
    }
    let outcome = ExactRetrievalOutcome::Matches { matches, scanned_candidates: scanned };
    proof {
        assert(b@.subrange(start + 1, start + 9) =~= region.subrange(1, 9));
        crate::document::lemma_le_u64_bytes(region.subrange(1, 9));
        crate::document::lemma_le_u64_bytes(region.subrange(9, 17));
        let o = exact_outcome_model(outcome);
        assert(region =~= seq![1u8] + region.subrange(1, 9) + region.subrange(9, 17) + b@.subrange(start + 17, end as int));
        assert(region =~= exact_outcome_bytes(o));
        assert(outcome_encodes(o, region));
        assert forall|m: ExactOutcomeModel| #[trigger] outcome_encodes(m, region) implies o == m by {
            lemma_outcome_injective(o, m, region);
        }
    }
    Ok(outcome)
}

/// Decodes an abstention from `b[start..end]` whose tag byte is 2.
#[verifier::rlimit(50)]
fn decode_abstention(b: &[u8], start: usize, end: usize) -> (r: Result<ExactRetrievalOutcome, RetrievalProofError>)
    requires
        start + 9 <= end <= b@.len(),
        b@[start as int] == 2,
    ensures
        r matches Ok(o) ==> outcome_encodes(exact_outcome_model(o), b@.subrange(start as int, end as int)),
        forall|m: ExactOutcomeModel| #[trigger] outcome_encodes(m, b@.subrange(start as int, end as int)) ==> (
        r matches Ok(o) && exact_outcome_model(o) == m),
{
    let ghost region = b@.subrange(start as int, end as int);
    let ghost has = exists|m: ExactOutcomeModel| #[trigger] outcome_encodes(m, region);
    let ghost expected = choose|m: ExactOutcomeModel| #[trigger] outcome_encodes(m, region);
    proof {
        if has {
            assert(region[0] == exact_outcome_bytes(expected)[0]);
            let x = expected->Abstained_0;
            let o1 = optional_score_bytes(x.best_score_nanos);
            let o2 = optional_score_bytes(x.runner_up_score_nanos);
            assert(region =~= seq![2u8] + u64_le(x.scanned_candidates) + seq![reason_tag(x.reason)] + o1 + o2);
            assert(region.len() == 10 + o1.len() + o2.len());
            assert(b@[start + 9] == region[9]);
            assert(b@.subrange(start + 10, start + 10 + o1.len()) =~= region.subrange(10, 10 + o1.len() as int));
            assert(region.subrange(10, 10 + o1.len() as int) =~= o1);
        }
    }
    let scanned = read_u64_le(b, start + 1);
    if end - start < 10 {
        return Err(RetrievalProofError::Invalid { reason: "truncated payload" });
    }
    let reason = match b[start + 9] {
        1 => ExactAbstentionReason::NoCandidates,
        2 => ExactAbstentionReason::BelowThreshold,
        3 => ExactAbstentionReason::Ambiguous,
        _ => {
            return Err(RetrievalProofError::Invalid { reason: "unknown abstention reason" });
        },
    };
    let (best, p1) = match read_optional_score(b, start + 10, end) {
        Ok(found) => found,
        Err(e) => {
            return Err(e);
        },
    };
    proof {
        if has {
            let x = expected->Abstained_0;
            let o1 = optional_score_bytes(x.best_score_nanos);
            let o2 = optional_score_bytes(x.runner_up_score_nanos);
            assert(b@.subrange(p1 as int, p1 + o2.len()) =~= region.subrange(10 + o1.len() as int, region.len() as int));
            assert(region.subrange(10 + o1.len() as int, region.len() as int) =~= o2);
        }
    }
    let (runner_up, p2) = match read_optional_score(b, p1, end) {
        Ok(found) => found,
        Err(e) => {
            return Err(e);
        },
    };
    if p2 != end {
        return Err(RetrievalProofError::Invalid { reason: "trailing payload bytes" });
    }
    let outcome = ExactRetrievalOutcome::Abstained(
        ExactAbstention { reason, best_score_nanos: best, runner_up_score_nanos: runner_up, scanned_candidates: scanned },
    );
    proof {
        assert(b@.subrange(start + 1, start + 9) =~= region.subrange(1, 9));
        crate::document::lemma_le_u64_bytes(region.subrange(1, 9));
        let o = exact_outcome_model(outcome);
        assert(region =~= seq![2u8] + region.subrange(1, 9) + seq![b@[start + 9]] + b@.subrange(start + 10, p1 as int) + b@.subrange(p1 as int, end as int));
        assert(region =~= exact_outcome_bytes(o));
        assert(outcome_encodes(o, region));
        assert forall|m: ExactOutcomeModel| #[trigger] outcome_encodes(m, region) implies o == m by {
            lemma_outcome_injective(o, m, region);
        }
    }
    Ok(outcome)
}

/// Decodes the canonical bytes of an outcome from `b[start..end]`.
pub(crate) fn decode_outcome(b: &[u8], start: usize, end: usize) -> (r: Result<ExactRetrievalOutcome, RetrievalProofError>)
    requires
        start <= end <= b@.len(),
    ensures
        r matches Ok(o) ==> outcome_encodes(exact_outcome_model(o), b@.subrange(start as int, end as int)),
        forall|m: ExactOutcomeModel| #[trigger] outcome_encodes(m, b@.subrange(start as int, end as int)) ==> (
        r matches Ok(o) && exact_outcome_model(o) == m),
{
    let ghost region = b@.subrange(start as int, end as int);
    if end - start < 9 {
        proof {
            assert forall|m: ExactOutcomeModel| #[trigger] outcome_encodes(m, region) implies false by {
                assert(exact_outcome_bytes(m).len() >= 10);
            }
        }
        return Err(RetrievalProofError::Invalid { reason: "truncated payload" });
    }
    let tag = b[start];
    if tag == 1 {
        decode_matches_outcome(b, start, end)
    } else if tag == 2 {
        decode_abstention(b, start, end)
    } else {
        proof {
            assert forall|m: ExactOutcomeModel| #[trigger] outcome_encodes(m, region) implies false by {
                assert(region[0] == exact_outcome_bytes(m)[0]);
            }
        }
        Err(RetrievalProofError::Invalid { reason: "unknown outcome tag" })
    }
}

// ---------------------------------------------------------------------------
// Verifying and decoding proof bytes.

/// The header failure of proof bytes, checked in order: size, length, magic,
/// format version, flags, operation, semantics, payload length, file length,
/// checksum, digest, empty-checkpoint digest.
pub open spec fn envelope_error(e: Seq<u8>, op: u16, supported: u16) -> Option<RetrievalProofError> {
    let n = le_u64(e.subrange(88, 96));
    let payload = e.subrange(132, e.len() as int);
    if e.len() > MAX_RETRIEVAL_PROOF_BYTES {
        Some(RetrievalProofError::ProofLimitExceeded { actual: e.len() as u64, maximum: MAX_RETRIEVAL_PROOF_BYTES })
    } else if e.len() < 132 {
        Some(RetrievalProofError::Invalid { reason: "truncated header" })
    } else if e.subrange(0, 8) != proof_magic() {
        Some(RetrievalProofError::Invalid { reason: "bad magic" })
    } else if le_u16(e.subrange(8, 10)) != RETRIEVAL_PROOF_FORMAT_VERSION {
        Some(
            RetrievalProofError::UnsupportedVersion {
                found: le_u16(e.subrange(8, 10)),
                supported: RETRIEVAL_PROOF_FORMAT_VERSION,
            },
        )
    } else if le_u16(e.subrange(10, 12)) != 0 {
        Some(RetrievalProofError::Invalid { reason: "unsupported flags" })
    } else if le_u16(e.subrange(12, 14)) != op {
        Some(RetrievalProofError::UnsupportedOperation { found: le_u16(e.subrange(12, 14)) })
    } else if le_u16(e.subrange(14, 16)) != supported {
        Some(RetrievalProofError::UnsupportedSemantics { found: le_u16(e.subrange(14, 16)), supported })
    } else if 132 + n > usize::MAX {
        Some(RetrievalProofError::LengthOverflow)
    } else if e.len() != 132 + n {
        Some(RetrievalProofError::Invalid { reason: "file length mismatch" })
    } else if le_u32(e.subrange(96, 100)) != crc32c_append_value(crc32c_append_value(0, e.subrange(0, 96)), payload) {
        Some(RetrievalProofError::ChecksumMismatch)
    } else if e.subrange(100, 132) != blake3_hash(proof_domain() + e.subrange(0, 100) + payload)@ {
        Some(RetrievalProofError::DigestMismatch)
    } else if le_u64(e.subrange(16, 24)) == 0 && e.subrange(24, 56) != zero_digest() {
        Some(RetrievalProofError::Invalid { reason: "empty checkpoint has a digest" })
    } else {
        None
    }
}

/// The parts of a proof's bytes.
pub(crate) proof fn lemma_envelope_layout(op: u16, semantics: u16, a: RetrievalProofAnchor, payload: Seq<u8>)
    requires
        132 + payload.len() <= u64::MAX,
    ensures
        ({
            let e = proof_envelope(op, semantics, a, payload);
            let h96 = proof_header_prefix(op, semantics, a, payload.len() as u64);
            &&& e.len() == 132 + payload.len()
            &&& e.subrange(0, 96) == h96
            &&& e.subrange(0, 8) == proof_magic()
            &&& le_u16(e.subrange(8, 10)) == RETRIEVAL_PROOF_FORMAT_VERSION
            &&& le_u16(e.subrange(10, 12)) == 0
            &&& le_u16(e.subrange(12, 14)) == op
            &&& le_u16(e.subrange(14, 16)) == semantics
            &&& le_u64(e.subrange(16, 24)) == a.checkpoint_sequence
            &&& e.subrange(24, 56) == digest_or_zero(a.checkpoint_digest)
            &&& e.subrange(56, 88) == a.snapshot_digest@
            &&& le_u64(e.subrange(88, 96)) == payload.len()
            &&& le_u32(e.subrange(96, 100)) == crc32c_append_value(crc32c_append_value(0, h96), payload)
            &&& e.subrange(100, 132) == blake3_hash(proof_domain() + e.subrange(0, 100) + payload)@
            &&& e.subrange(132, e.len() as int) == payload
        }),
{
    let e = proof_envelope(op, semantics, a, payload);
    let h96 = proof_header_prefix(op, semantics, a, payload.len() as u64);
    let crc = crc32c_append_value(crc32c_append_value(0, h96), payload);
    let h100 = h96 + u32_le(crc);
    let d = blake3_hash(proof_domain() + h100 + payload)@;
    assert(d.len() == 32);
    assert(h96.len() == 96);
    assert(e == h100 + d + payload);
    assert(e.subrange(0, 96) =~= h96);
    assert(e.subrange(0, 100) =~= h100);
    assert(e.subrange(0, 8) =~= proof_magic());
    assert(e.subrange(8, 10) =~= u16_le(RETRIEVAL_PROOF_FORMAT_VERSION));
    assert(e.subrange(10, 12) =~= u16_le(0));
    assert(e.subrange(12, 14) =~= u16_le(op));
    assert(e.subrange(14, 16) =~= u16_le(semantics));
    assert(e.subrange(16, 24) =~= u64_le(a.checkpoint_sequence));
    assert(e.subrange(24, 56) =~= digest_or_zero(a.checkpoint_digest));
    assert(e.subrange(56, 88) =~= a.snapshot_digest@);
    assert(e.subrange(88, 96) =~= u64_le(payload.len() as u64));
    assert(e.subrange(96, 100) =~= u32_le(crc));
    assert(e.subrange(100, 132) =~= d);
    assert(e.subrange(132, e.len() as int) =~= payload);
    lemma_u16_le_round_trip(RETRIEVAL_PROOF_FORMAT_VERSION);
    lemma_u16_le_round_trip(0);
    lemma_u16_le_round_trip(op);
    lemma_u16_le_round_trip(semantics);
    lemma_u64_le_round_trip(a.checkpoint_sequence);
    lemma_u64_le_round_trip(payload.len() as u64);
    lemma_u32_le_round_trip(crc);
}

/// Whether the 32 bytes at `pos` are all zero.
pub(crate) fn zero_at(b: &[u8], pos: usize) -> (r: bool)
    requires
        pos + 32 <= b@.len(),
    ensures
        r == (b@.subrange(pos as int, pos + 32) == zero_digest()),
{
    let length = b.len();
    let mut i: usize = 0;
    while i < 32
        invariant
            length == b@.len(),
            pos + 32 <= b@.len(),
            i <= 32,
            forall|j: int| 0 <= j < i ==> #[trigger] b@.subrange(pos as int, pos + 32)[j] == 0u8,
        decreases 32 - i,
    {
        proof {
            assert(b@.subrange(pos as int, pos + 32)[i as int] == b@[pos + i]);
        }
        if b[pos + i] != 0 {
            proof {
                assert(b@.subrange(pos as int, pos + 32)[i as int] != zero_digest()[i as int]);
            }
            return false;
        }
        i = i + 1;
    }
    proof {
        assert(b@.subrange(pos as int, pos + 32) =~= zero_digest());
    }
    true
}

/// Verifies the header of proof bytes for an operation and its semantics,
/// and returns the anchor, semantics version and stored digest.
pub(crate) fn decode_envelope(encoded: &[u8], op: u16, supported: u16) -> (r: Result<(RetrievalProofAnchor, u16, [u8; 32]), RetrievalProofError>)
    ensures
        match envelope_error(encoded@, op, supported) {
            Some(h) => r == Err::<(RetrievalProofAnchor, u16, [u8; 32]), RetrievalProofError>(h),
            None => r matches Ok((a, semantics, digest)) && {
                let e = encoded@;
                &&& semantics == supported
                &&& a.checkpoint_sequence == le_u64(e.subrange(16, 24))
                &&& anchor_canonical(a)
                &&& digest_or_zero(a.checkpoint_digest) == e.subrange(24, 56)
                &&& a.snapshot_digest@ == e.subrange(56, 88)
                &&& digest@ == e.subrange(100, 132)
            },
        },
{
    let ghost e = encoded@;
    if encoded.len() as u64 > MAX_RETRIEVAL_PROOF_BYTES {
        return Err(
            RetrievalProofError::ProofLimitExceeded {
                actual: encoded.len() as u64,
                maximum: MAX_RETRIEVAL_PROOF_BYTES,
            },
        );
    }
    if encoded.len() < 132 {
        return Err(RetrievalProofError::Invalid { reason: "truncated header" });
    }
    if !(encoded[0] == 72 && encoded[1] == 89 && encoded[2] == 82 && encoded[3] == 80 && encoded[4] == 70
        && encoded[5] == 48 && encoded[6] == 48 && encoded[7] == 49) {
        proof {
            if e.subrange(0, 8) == proof_magic() {
                assert(e.subrange(0, 8)[0] == e[0]);
                assert(e.subrange(0, 8)[1] == e[1]);
                assert(e.subrange(0, 8)[2] == e[2]);
                assert(e.subrange(0, 8)[3] == e[3]);
                assert(e.subrange(0, 8)[4] == e[4]);
                assert(e.subrange(0, 8)[5] == e[5]);
                assert(e.subrange(0, 8)[6] == e[6]);
                assert(e.subrange(0, 8)[7] == e[7]);
            }
        }
        return Err(RetrievalProofError::Invalid { reason: "bad magic" });
    }
    proof {
        assert(e.subrange(0, 8) =~= proof_magic());
    }
    let version = read_u16_le(encoded, 8);
    if version != RETRIEVAL_PROOF_FORMAT_VERSION {
        return Err(
            RetrievalProofError::UnsupportedVersion { found: version, supported: RETRIEVAL_PROOF_FORMAT_VERSION },
        );
    }
    if read_u16_le(encoded, 10) != 0 {
        return Err(RetrievalProofError::Invalid { reason: "unsupported flags" });
    }
    let operation = read_u16_le(encoded, 12);
    if operation != op {
        return Err(RetrievalProofError::UnsupportedOperation { found: operation });
    }
    let semantics = read_u16_le(encoded, 14);
    if semantics != supported {
        return Err(RetrievalProofError::UnsupportedSemantics { found: semantics, supported });
    }
    let length = read_u64_le(encoded, 88);
    if length > usize::MAX as u64 || length as usize > usize::MAX - 132 {
        return Err(RetrievalProofError::LengthOverflow);
    }
    if encoded.len() != 132 + length as usize {
        return Err(RetrievalProofError::Invalid { reason: "file length mismatch" });
    }
    let payload = copy_range(encoded, 132, encoded.len());
    let header96 = copy_range(encoded, 0, 96);
    let expected_checksum = read_u32_le(encoded, 96);
    let actual_checksum = crc32c_append(crc32c_append(0, header96.as_slice()), payload.as_slice());
    if actual_checksum != expected_checksum {
        return Err(RetrievalProofError::ChecksumMismatch);
    }
    let mut digested: Vec<u8> = Vec::new();
    extend(
        &mut digested,
        &[
            104u8, 121u8, 112u8, 104u8, 97u8, 101u8, 45u8, 114u8, 101u8, 116u8, 114u8, 105u8,
            101u8, 118u8, 97u8, 108u8, 45u8, 112u8, 114u8, 111u8, 111u8, 102u8, 45u8, 118u8,
            49u8,
        ],
    );
    proof {
        assert(digested@ =~= proof_domain());
    }
    let header100 = copy_range(encoded, 0, 100);
    extend(&mut digested, header100.as_slice());
    extend(&mut digested, payload.as_slice());
    let computed = blake3_digest(digested.as_slice());
    let stored = copy_range(encoded, 100, 132);
    if !crate::shared::bytes_equal(&computed, stored.as_slice()) {
        return Err(RetrievalProofError::DigestMismatch);
    }
    let checkpoint_sequence = read_u64_le(encoded, 16);
    let checkpoint_digest = if checkpoint_sequence == 0 {
        if !zero_at(encoded, 24) {
            return Err(RetrievalProofError::Invalid { reason: "empty checkpoint has a digest" });
        }
        None
    } else {
        Some(digest_at(encoded, 24))
    };
    let anchor = RetrievalProofAnchor {
        checkpoint_sequence,
        checkpoint_digest,
        snapshot_digest: digest_at(encoded, 56),
    };
    let digest = digest_at(encoded, 100);
    Ok((anchor, semantics, digest))
}

/// Reads a 64-bit length at `pos` and returns the bounds of the bytes
/// behind it.
pub(crate) fn take_prefixed(b: &[u8], pos: usize, end: usize) -> (r: Result<(usize, usize), RetrievalProofError>)
    requires
        pos <= end <= b@.len(),
    ensures
        r matches Ok((s, t)) ==> s == pos + 8 && s <= t <= end && b@.subrange(pos as int, t as int) == prefixed(
            b@.subrange(s as int, t as int),
        ),
        forall|d: Seq<u8>|
            pos + 8 + d.len() <= end && #[trigger] prefixed(d) == b@.subrange(pos as int, pos + 8 + d.len()) ==> r
                == Ok::<(usize, usize), RetrievalProofError>(((pos + 8) as usize, (pos + 8 + d.len()) as usize)),
{
    proof {
        assert forall|d: Seq<u8>|
            pos + 8 + d.len() <= end && #[trigger] prefixed(d) == b@.subrange(pos as int, pos + 8 + d.len()) implies le_u64(
            b@.subrange(pos as int, pos + 8),
        ) == d.len() by {
            assert(b@.subrange(pos as int, pos + 8) =~= prefixed(d).subrange(0, 8));
            assert(prefixed(d).subrange(0, 8) =~= u64_le(d.len() as u64));
            lemma_u64_le_round_trip(d.len() as u64);
        }
    }
    if end - pos < 8 {
        return Err(RetrievalProofError::Invalid { reason: "truncated payload" });
    }
    let length = read_u64_le(b, pos);
    if length > usize::MAX as u64 {
        return Err(RetrievalProofError::LengthOverflow);
    }
    let start = pos + 8;
    if length as usize > usize::MAX - start {
        return Err(RetrievalProofError::LengthOverflow);
    }
    let stop = start + length as usize;
    if stop > end {
        return Err(RetrievalProofError::Invalid { reason: "truncated payload" });
    }
    proof {
        crate::document::lemma_le_u64_bytes(b@.subrange(pos as int, pos + 8));
        assert(b@.subrange(pos as int, stop as int) =~= prefixed(b@.subrange(start as int, stop as int)));
    }
    Ok((start, stop))
}

/// `m` is a complete exact proof whose canonical bytes are `e`.
#[verifier::opaque]
pub open spec fn exact_proof_decodes(m: ExactProofModel, e: Seq<u8>) -> bool {
    exact_proof_valid(m) && exact_proof_bytes(m) == e
}

pub(crate) proof fn lemma_outcome_fault_shape(limit: usize, m: ExactOutcomeModel)
    requires
        outcome_fault(limit, m) is None,
    ensures
        outcome_shape(m),
{
    if m is Matches {
        lemma_matches_fault_none(m->matches, 0);
    }
}

pub(crate) proof fn lemma_anchor_equal(a: RetrievalProofAnchor, b: RetrievalProofAnchor)
    requires
        anchor_canonical(a),
        anchor_canonical(b),
        a.checkpoint_sequence == b.checkpoint_sequence,
        digest_or_zero(a.checkpoint_digest) == digest_or_zero(b.checkpoint_digest),
        a.snapshot_digest@ == b.snapshot_digest@,
    ensures
        a == b,
{
    assert(a.snapshot_digest =~= b.snapshot_digest);
    if a.checkpoint_digest is Some {
        let x = a.checkpoint_digest->Some_0;
        let y = b.checkpoint_digest->Some_0;
        assert(x =~= y);
    }
}

/// The bytes of a proof model rebuilt from its verified parts.
pub(crate) proof fn lemma_envelope_from_parts(
    e: Seq<u8>,
    a: RetrievalProofAnchor,
    op: u16,
    semantics: u16,
)
    requires
        envelope_error(e, op, semantics) is None,
        a.checkpoint_sequence == le_u64(e.subrange(16, 24)),
        digest_or_zero(a.checkpoint_digest) == e.subrange(24, 56),
        a.snapshot_digest@ == e.subrange(56, 88),
    ensures
        e == proof_envelope(op, semantics, a, e.subrange(132, e.len() as int)),
{
    let payload = e.subrange(132, e.len() as int);
    lemma_le_u16_bytes(e.subrange(8, 10));
    lemma_le_u16_bytes(e.subrange(10, 12));
    lemma_le_u16_bytes(e.subrange(12, 14));
    lemma_le_u16_bytes(e.subrange(14, 16));
    crate::document::lemma_le_u64_bytes(e.subrange(16, 24));
    crate::document::lemma_le_u64_bytes(e.subrange(88, 96));
    lemma_le_u32_bytes(e.subrange(96, 100));
    let h96 = proof_header_prefix(op, semantics, a, payload.len() as u64);
    assert(e.subrange(0, 96) =~= h96);
    let crc = crc32c_append_value(crc32c_append_value(0, h96), payload);
    let h100 = h96 + u32_le(crc);
    assert(e.subrange(0, 100) =~= h100);
    assert(e =~= h100 + e.subrange(100, 132) + payload);
}

/// Where the request and outcome stand in the bytes of an exact proof.
proof fn lemma_exact_payload_parts(m: ExactProofModel, e: Seq<u8>)
    requires
        exact_proof_bytes(m) == e,
        132 + exact_proof_payload(m).len() <= u64::MAX,
    ensures
        ({
            let rq = exact_request_bytes(m.request);
            let oc = exact_outcome_bytes(m.outcome);
            &&& e.len() == 148 + rq.len() + oc.len()
            &&& e.subrange(132, 140 + rq.len() as int) == prefixed(rq)
            &&& e.subrange(140, 140 + rq.len() as int) == rq
            &&& e.subrange(140 + rq.len() as int, e.len() as int) == prefixed(oc)
            &&& e.subrange(148 + rq.len() as int, e.len() as int) == oc
            &&& le_u64(e.subrange(16, 24)) == m.anchor.checkpoint_sequence
            &&& digest_or_zero(m.anchor.checkpoint_digest) == e.subrange(24, 56)
            &&& m.anchor.snapshot_digest@ == e.subrange(56, 88)
        }),
{
    let rq = exact_request_bytes(m.request);
    let oc = exact_outcome_bytes(m.outcome);
    let payload = exact_proof_payload(m);
    lemma_envelope_layout(EXACT_OPERATION, m.semantics_version, m.anchor, payload);
    let tail = e.subrange(132, e.len() as int);
    assert(tail == prefixed(rq) + prefixed(oc));
    assert(e.subrange(132, 140 + rq.len() as int) =~= tail.subrange(0, 8 + rq.len() as int));
    assert(tail.subrange(0, 8 + rq.len() as int) =~= prefixed(rq));
    assert(e.subrange(140, 140 + rq.len() as int) =~= rq);
    assert(e.subrange(140 + rq.len() as int, e.len() as int) =~= tail.subrange(8 + rq.len() as int, tail.len() as int));
    assert(tail.subrange(8 + rq.len() as int, tail.len() as int) =~= prefixed(oc));
    assert(e.subrange(148 + rq.len() as int, e.len() as int) =~= oc);
}

/// Where the parts of a complete exact proof stand in its bytes.
proof fn lemma_exact_parts(m: ExactProofModel, e: Seq<u8>)
    requires
        exact_proof_decodes(m, e),
    ensures
        ({
            let rq = exact_request_bytes(m.request);
            let oc = exact_outcome_bytes(m.outcome);
            &&& e.len() == 148 + rq.len() + oc.len()
            &&& e.subrange(132, 140 + rq.len() as int) == prefixed(rq)
            &&& e.subrange(140, 140 + rq.len() as int) == rq
            &&& e.subrange(140 + rq.len() as int, e.len() as int) == prefixed(oc)
            &&& e.subrange(148 + rq.len() as int, e.len() as int) == oc
            &&& request_encodes(m.request, rq)
            &&& outcome_encodes(m.outcome, oc)
            &&& le_u64(e.subrange(16, 24)) == m.anchor.checkpoint_sequence
            &&& digest_or_zero(m.anchor.checkpoint_digest) == e.subrange(24, 56)
            &&& m.anchor.snapshot_digest@ == e.subrange(56, 88)
            &&& anchor_canonical(m.anchor)
            &&& m.semantics_version == EXACT_RETRIEVAL_SEMANTICS_VERSION
            &&& m.proof_digest == e.subrange(100, 132)
            &&& request_check(m.request) is Ok
            &&& outcome_fault(m.request.limit, m.outcome) is None
            &&& e.len() <= MAX_RETRIEVAL_PROOF_BYTES
        }),
{
    reveal(exact_proof_decodes);
    assert(exact_proof_fault(m) is None);
    lemma_exact_payload_parts(m, e);
    lemma_outcome_fault_shape(m.request.limit, m.outcome);
}

/// A proof assembled from verified bytes is complete and encodes them.
proof fn lemma_exact_assembled(
    m: ExactProofModel,
    e: Seq<u8>,
    re: int,
)
    requires
        envelope_error(e, EXACT_OPERATION, EXACT_RETRIEVAL_SEMANTICS_VERSION) is None,
        m.semantics_version == EXACT_RETRIEVAL_SEMANTICS_VERSION,
        m.anchor.checkpoint_sequence == le_u64(e.subrange(16, 24)),
        anchor_canonical(m.anchor),
        digest_or_zero(m.anchor.checkpoint_digest) == e.subrange(24, 56),
        m.anchor.snapshot_digest@ == e.subrange(56, 88),
        m.proof_digest == e.subrange(100, 132),
        140 <= re <= e.len(),
        e.subrange(132, re) == prefixed(exact_request_bytes(m.request)),
        e.subrange(re, e.len() as int) == prefixed(exact_outcome_bytes(m.outcome)),
        request_shape(m.request),
        request_check(m.request) is Ok,
        outcome_fault(m.request.limit, m.outcome) is None,
    ensures
        exact_proof_decodes(m, e),
{
    reveal(exact_proof_decodes);
    assert(e.subrange(132, e.len() as int) =~= e.subrange(132, re) + e.subrange(re, e.len() as int));
    assert(e.subrange(132, e.len() as int) =~= exact_proof_payload(m));
    lemma_envelope_from_parts(e, m.anchor, EXACT_OPERATION, m.semantics_version);
}

#[verifier::rlimit(40)]
proof fn lemma_exact_decodes_unique(x: ExactProofModel, y: ExactProofModel, e: Seq<u8>)
    requires
        exact_proof_decodes(x, e),
        exact_proof_decodes(y, e),
    ensures
        x == y,
{
    lemma_exact_parts(x, e);
    lemma_exact_parts(y, e);
    let rx = exact_request_bytes(x.request);
    let ry = exact_request_bytes(y.request);
    assert(e.subrange(132, 140) =~= e.subrange(132, 140 + rx.len() as int).subrange(0, 8));
    assert(e.subrange(132, 140) =~= e.subrange(132, 140 + ry.len() as int).subrange(0, 8));
    assert(prefixed(rx).subrange(0, 8) =~= u64_le(rx.len() as u64));
    assert(prefixed(ry).subrange(0, 8) =~= u64_le(ry.len() as u64));
    lemma_u64_le_round_trip(rx.len() as u64);
    lemma_u64_le_round_trip(ry.len() as u64);
    assert(rx.len() == ry.len());
    lemma_request_injective(x.request, y.request, rx);
    lemma_outcome_injective(x.outcome, y.outcome, exact_outcome_bytes(x.outcome));
    lemma_anchor_equal(x.anchor, y.anchor);
}

impl ExactRetrievalProof {
    /// Verifies and decodes canonical proof bytes: the header checks in
    /// order, then exactly the bytes of complete proofs decode, each to the
    /// proof they encode.
    #[verifier::rlimit(80)]
    pub fn from_bytes(encoded: &[u8]) -> (r: Result<Self, RetrievalProofError>)
        ensures
            envelope_error(encoded@, EXACT_OPERATION, EXACT_RETRIEVAL_SEMANTICS_VERSION) matches Some(h) ==> r
                == Err::<Self, RetrievalProofError>(h),
            envelope_error(encoded@, EXACT_OPERATION, EXACT_RETRIEVAL_SEMANTICS_VERSION) is None ==> {
                &&& r matches Ok(p) ==> exact_proof_decodes(p@, encoded@)
                &&& forall|m: ExactProofModel| #[trigger] exact_proof_decodes(m, encoded@) ==> (r matches Ok(p) && p@
                    == m)
            },
    {
        let ghost e = encoded@;
        let (anchor, semantics, digest) = match decode_envelope(
            encoded,
            EXACT_OPERATION,
            EXACT_RETRIEVAL_SEMANTICS_VERSION,
        ) {
            Ok(found) => found,
            Err(err) => {
                return Err(err);
            },
        };
        let end = encoded.len();
        let ghost has = exists|m: ExactProofModel| #[trigger] exact_proof_decodes(m, e);
        let ghost expected = choose|m: ExactProofModel| #[trigger] exact_proof_decodes(m, e);
        proof {
            if has {
                lemma_exact_parts(expected, e);
            }
        }
        let (rs, re) = match take_prefixed(encoded, 132, end) {
            Ok(found) => found,
            Err(err) => {
                return Err(err);
            },
        };
        proof {
            if has {
                let rq = exact_request_bytes(expected.request);
                assert(rs == 140 && re == 140 + rq.len());
                assert(request_encodes(expected.request, e.subrange(rs as int, re as int)));
            }
        }
        let request = match decode_request(encoded, rs, re) {
            Ok(q) => q,
            Err(err) => {
                return Err(err);
            },
        };
        let (os, oe) = match take_prefixed(encoded, re, end) {
            Ok(found) => found,
            Err(err) => {
                return Err(err);
            },
        };
        proof {
            if has {
                let rq = exact_request_bytes(expected.request);
                let oc = exact_outcome_bytes(expected.outcome);
                assert(os == re + 8 && oe == re + 8 + oc.len());
                assert(outcome_encodes(expected.outcome, e.subrange(os as int, oe as int)));
            }
        }
        let outcome = match decode_outcome(encoded, os, oe) {
            Ok(o) => o,
            Err(err) => {
                return Err(err);
            },
        };
        if oe != end {
            return Err(RetrievalProofError::Invalid { reason: "trailing payload bytes" });
        }
        match check_request(&request) {
            Ok(()) => {},
            Err(err) => {
                return Err(err);
            },
        }
        match validate_outcome(request.limit, &outcome) {
            Ok(()) => {},
            Err(err) => {
                return Err(err);
            },
        }
        let proof = ExactRetrievalProof { anchor, semantics_version: semantics, request, outcome, proof_digest: digest };
        proof {
            let m = proof@;
            lemma_exact_assembled(m, e, re as int);
            assert forall|x: ExactProofModel| #[trigger] exact_proof_decodes(x, e) implies m == x by {
                lemma_exact_decodes_unique(m, x, e);
            }
        }
        Ok(proof)
    }
}

/// Decoding the bytes of a complete exact proof gives the proof back: the
/// bytes pass every header check and decode to exactly that proof.
pub proof fn lemma_exact_proof_round_trip(m: ExactProofModel)
    requires
        exact_proof_valid(m),
    ensures
        envelope_error(exact_proof_bytes(m), EXACT_OPERATION, EXACT_RETRIEVAL_SEMANTICS_VERSION) is None,
        exact_proof_decodes(m, exact_proof_bytes(m)),
{
    reveal(exact_proof_decodes);
    let e = exact_proof_bytes(m);
    let payload = exact_proof_payload(m);
    lemma_envelope_layout(EXACT_OPERATION, m.semantics_version, m.anchor, payload);
    lemma_u64_le_round_trip(m.anchor.checkpoint_sequence);
    if m.anchor.checkpoint_sequence == 0 {
        assert(m.anchor.checkpoint_digest is None);
    }
}


proof fn lemma_exact_matches_fault_none(ms: Seq<(Seq<u8>, i64)>, i: int)
    requires
        0 <= i,
        matches_fault(ms, i) is None,
    ensures
        forall|k: int| i <= k < ms.len() ==> match_valid(#[trigger] ms[k]) && (k > 0 ==> match_precedes(ms[k - 1], ms[k])),
    decreases ms.len() - i,
{
    if i < ms.len() {
        lemma_exact_matches_fault_none(ms, i + 1);
    }
}

/// What every exact proof that encodes holds (the proofs for which
/// `to_bytes` succeeds): semantics version 2, a canonical anchor, a request
/// that retrieval accepts, and an outcome that is either between one and
/// `min(limit, scanned)` matches, each with a key of `1..=MAX_KEY_BYTES`
/// bytes and a score in range, ranked strictly by score then key, or an
/// abstention with in-range scores and evidence consistent with its reason.
pub proof fn lemma_exact_proof_encodable(m: ExactProofModel)
    requires
        exact_proof_fault(m) is None,
    ensures
        m.semantics_version == EXACT_RETRIEVAL_SEMANTICS_VERSION,
        anchor_canonical(m.anchor),
        request_check(m.request) is Ok,
        m.outcome matches ExactOutcomeModel::Matches { matches, scanned_candidates } ==> {
            &&& 1 <= matches.len()
            &&& matches.len() <= m.request.limit
            &&& matches.len() <= scanned_candidates
            &&& forall|k: int|
                0 <= k < matches.len() ==> match_valid(#[trigger] matches[k]) && (k > 0 ==> match_precedes(
                    matches[k - 1],
                    matches[k],
                ))
        },
        m.outcome matches ExactOutcomeModel::Abstained(a) ==> {
            &&& abstention_canonical(a)
            &&& a.best_score_nanos matches Some(b) ==> score_in_range(b)
            &&& a.runner_up_score_nanos matches Some(u) ==> score_in_range(u)
        },
{
    match m.outcome {
        ExactOutcomeModel::Matches { matches, .. } => {
            lemma_exact_matches_fault_none(matches, 0);
        },
        _ => {},
    }
}

} // verus!
