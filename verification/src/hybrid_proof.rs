//! Canonical hybrid-retrieval proofs: both complete branch executions, the
//! fusion request, and the fused outcome that they must reproduce.
use vstd::prelude::*;

use crate::document::{
    extend, le_u32, le_u64, lemma_u32_le_round_trip, lemma_u64_le_round_trip, push_u32_le, push_u64_le, read_u32_le,
    read_u64_le, u32_le, u64_le,
};
use crate::canonical::{ExactAbstentionReason, ExactRetrievalOutcome, ExactRetrievalRequest};
use crate::hybrid::{
    fuse_hybrid, fused_ranking, fusion_fault, lemma_fused_ranking_unique, lexical_absence, lexical_branch,
    vector_absence, vector_branch, weights_valid, HybridAbstention, HybridBranchAbsence, HybridError,
    HybridExplanation, HybridMatch, HybridOutcome, HybridRequest,
};
use crate::lexical::{LexicalOutcome, LexicalRequest};
use crate::lexical_proof::{
    flat, item_at, items_fill, lemma_flat_push, lemma_items_step, lemma_str32_payload, lex_outcome_bytes,
    lex_outcome_fault, lex_outcome_fits, lex_outcome_model, lex_outcome_shape, lex_request_bytes, lex_request_fits,
    lex_request_model, lex_request_shape, lex_request_valid, push_str32, read_count, read_str32, str32,
    LexOutcomeModel, LexRequestModel, MAX_PROOF_COLLECTION_ITEMS,
};
use crate::digest::blake3_hash;
use crate::lexical_proof::{
    decode_lexical_outcome, decode_lexical_request, encode_lexical_outcome, encode_lexical_request,
    lemma_lex_outcome_encodes_elim, lemma_lex_outcome_encodes_intro, lemma_lex_outcome_shape_fits, lex_outcome_encodes,
    lex_request_encodes,
    validate_lexical_outcome, validate_lexical_request,
};
use crate::retrieval_proof::{
    anchor_domain, anchor_identity_bytes, check_request, decode_envelope, decode_outcome, decode_request, digest_at,
    digest_or_zero, encode_envelope, envelope_error, lemma_anchor_equal, lemma_envelope_from_parts,
    lemma_envelope_layout, lemma_outcome_fault_shape,
    encode_outcome, encode_request, lemma_matches_fault_none, outcome_encodes, outcome_shape, request_encodes,
    take_prefixed, validate_anchor, validate_outcome, zero_digest, SnapshotInfo,
};
use crate::retrieval_proof::{
    anchor_canonical, envelope_size_fault, exact_outcome_bytes, exact_outcome_model, exact_request_bytes,
    exact_request_model, optional_score_bytes, outcome_fault, prefixed, proof_envelope, proof_payload,
    push_optional_score, read_optional_score, request_check, request_shape, ExactOutcomeModel, ExactRequestModel,
    RetrievalProofAnchor, RetrievalProofError, HYBRID_OPERATION, HYBRID_RETRIEVAL_SEMANTICS_VERSION,
};

verus! {

// ---------------------------------------------------------------------------
// Fused outcomes.

/// Mathematical model of a hybrid outcome.
pub enum HybridOutcomeModel {
    Matches {
        matches: Seq<(Seq<u8>, HybridExplanation)>,
        lexical_absence: Option<HybridBranchAbsence>,
        vector_absence: Option<HybridBranchAbsence>,
    },
    Abstained(HybridAbstention),
}

pub open spec fn hybrid_match_model(m: HybridMatch) -> (Seq<u8>, HybridExplanation) {
    (m.key@, m.explanation)
}

pub open spec fn hybrid_matches_model(ms: Seq<HybridMatch>) -> Seq<(Seq<u8>, HybridExplanation)> {
    Seq::new(ms.len(), |i: int| hybrid_match_model(ms[i]))
}

/// The model of a hybrid outcome.
pub open spec fn hybrid_outcome_model(o: HybridOutcome) -> HybridOutcomeModel {
    match o {
        HybridOutcome::Matches { matches, lexical_absence, vector_absence } => HybridOutcomeModel::Matches {
            matches: hybrid_matches_model(matches@),
            lexical_absence,
            vector_absence,
        },
        HybridOutcome::Abstained(a) => HybridOutcomeModel::Abstained(a),
    }
}

/// The stable tag of an absence reason.
pub open spec fn absence_tag(a: HybridBranchAbsence) -> u8 {
    match a {
        HybridBranchAbsence::LexicalNoCandidates => 1,
        HybridBranchAbsence::VectorNoCandidates => 2,
        HybridBranchAbsence::VectorBelowThreshold => 3,
        HybridBranchAbsence::VectorAmbiguous => 4,
    }
}

/// An optional absence: 0, or 1 and its tag.
pub open spec fn optional_absence_bytes(a: Option<HybridBranchAbsence>) -> Seq<u8> {
    match a {
        None => seq![0u8],
        Some(x) => seq![1u8, absence_tag(x)],
    }
}

/// An optional count: 0, or 1 and its bytes.
pub open spec fn optional_u64_bytes(x: Option<u64>) -> Seq<u8> {
    match x {
        None => seq![0u8],
        Some(v) => seq![1u8] + u64_le(v),
    }
}

/// The contributions, fusion score and final rank of an explanation.
pub open spec fn counters_bytes(e: HybridExplanation) -> Seq<u8> {
    u64_le(e.lexical_contribution) + u64_le(e.vector_contribution) + u64_le(e.fusion_score) + u64_le(e.final_rank)
}

/// The explanation fields of a fused match.
pub open spec fn explanation_bytes(e: HybridExplanation) -> Seq<u8> {
    optional_u64_bytes(e.lexical_rank) + optional_score_bytes(e.lexical_score_nanos) + optional_u64_bytes(
        e.vector_rank,
    ) + optional_score_bytes(e.vector_score_nanos) + counters_bytes(e)
}

/// A fused match: its key, then its explanation.
pub open spec fn hybrid_match_bytes(m: (Seq<u8>, HybridExplanation)) -> Seq<u8> {
    str32(m.0) + explanation_bytes(m.1)
}

pub open spec fn hybrid_match_encoder() -> spec_fn((Seq<u8>, HybridExplanation)) -> Seq<u8> {
    |m: (Seq<u8>, HybridExplanation)| hybrid_match_bytes(m)
}

/// Canonical bytes of a hybrid outcome.
pub open spec fn hybrid_outcome_bytes(o: HybridOutcomeModel) -> Seq<u8> {
    match o {
        HybridOutcomeModel::Matches { matches, lexical_absence, vector_absence } => seq![1u8] + optional_absence_bytes(
            lexical_absence,
        ) + optional_absence_bytes(vector_absence) + u64_le(matches.len() as u64) + flat(
            matches,
            hybrid_match_encoder(),
        ),
        HybridOutcomeModel::Abstained(a) => seq![2u8, absence_tag(a.lexical), absence_tag(a.vector)],
    }
}

/// Every key length of an outcome fits 32 bits.
pub open spec fn hybrid_outcome_fits(o: HybridOutcomeModel) -> bool {
    match o {
        HybridOutcomeModel::Matches { matches: ms, .. } => forall|i: int|
            0 <= i < ms.len() ==> (#[trigger] ms[i]).0.len() <= u32::MAX,
        HybridOutcomeModel::Abstained(_) => true,
    }
}

/// Canonical bytes of a fusion request.
pub open spec fn hybrid_request_bytes(r: HybridRequest) -> Seq<u8> {
    u32_le(r.lexical_weight) + u32_le(r.vector_weight) + u64_le(r.limit as u64)
}

fn absence_byte(a: HybridBranchAbsence) -> (r: u8)
    ensures
        r == absence_tag(a),
{
    match a {
        HybridBranchAbsence::LexicalNoCandidates => 1,
        HybridBranchAbsence::VectorNoCandidates => 2,
        HybridBranchAbsence::VectorBelowThreshold => 3,
        HybridBranchAbsence::VectorAmbiguous => 4,
    }
}

fn push_optional_absence(out: &mut Vec<u8>, a: Option<HybridBranchAbsence>)
    ensures
        final(out)@ == old(out)@ + optional_absence_bytes(a),
{
    match a {
        None => {
            out.push(0);
        },
        Some(x) => {
            out.push(1);
            out.push(absence_byte(x));
        },
    }
    proof {
        assert(final(out)@ =~= old(out)@ + optional_absence_bytes(a));
    }
}

fn push_optional_u64(out: &mut Vec<u8>, x: Option<u64>)
    ensures
        final(out)@ == old(out)@ + optional_u64_bytes(x),
{
    match x {
        None => {
            out.push(0);
        },
        Some(v) => {
            out.push(1);
            push_u64_le(out, v);
        },
    }
    proof {
        assert(final(out)@ =~= old(out)@ + optional_u64_bytes(x));
    }
}

fn push_hybrid_match(out: &mut Vec<u8>, m: &HybridMatch) -> (r: Result<(), RetrievalProofError>)
    ensures
        m.key@.len() <= u32::MAX ==> r is Ok && final(out)@ == old(out)@ + hybrid_match_bytes(hybrid_match_model(*m)),
        m.key@.len() > u32::MAX ==> r == Err::<(), RetrievalProofError>(RetrievalProofError::LengthOverflow),
{
    match push_str32(out, m.key.as_slice()) {
        Ok(()) => {},
        Err(e) => {
            return Err(e);
        },
    }
    let e = m.explanation;
    push_optional_u64(out, e.lexical_rank);
    push_optional_score(out, e.lexical_score_nanos);
    push_optional_u64(out, e.vector_rank);
    push_optional_score(out, e.vector_score_nanos);
    push_u64_le(out, e.lexical_contribution);
    push_u64_le(out, e.vector_contribution);
    push_u64_le(out, e.fusion_score);
    push_u64_le(out, e.final_rank);
    proof {
        assert(final(out)@ =~= old(out)@ + hybrid_match_bytes(hybrid_match_model(*m)));
    }
    Ok(())
}

/// Canonical bytes of a hybrid outcome whose key lengths fit.
#[verifier::spinoff_prover]
#[verifier::rlimit(40)]
pub(crate) fn encode_hybrid_outcome(outcome: &HybridOutcome) -> (r: Result<Vec<u8>, RetrievalProofError>)
    ensures
        hybrid_outcome_fits(hybrid_outcome_model(*outcome)) ==> (r matches Ok(b) && b@ == hybrid_outcome_bytes(
            hybrid_outcome_model(*outcome),
        )),
        !hybrid_outcome_fits(hybrid_outcome_model(*outcome)) ==> r == Err::<Vec<u8>, RetrievalProofError>(
            RetrievalProofError::LengthOverflow,
        ),
{
    let mut out: Vec<u8> = Vec::new();
    match outcome {
        HybridOutcome::Matches { matches, lexical_absence, vector_absence } => {
            let ghost ms = hybrid_matches_model(matches@);
            out.push(1);
            push_optional_absence(&mut out, *lexical_absence);
            push_optional_absence(&mut out, *vector_absence);
            push_u64_le(&mut out, matches.len() as u64);
            let ghost start = out@;
            let mut i: usize = 0;
            proof {
                assert(ms.take(0) =~= Seq::<(Seq<u8>, HybridExplanation)>::empty());
            }
            while i < matches.len()
                invariant
                    ms == hybrid_matches_model(matches@),
                    hybrid_outcome_model(*outcome) == (HybridOutcomeModel::Matches {
                        matches: ms,
                        lexical_absence: *lexical_absence,
                        vector_absence: *vector_absence,
                    }),
                    i <= matches@.len(),
                    out@ == start + flat(ms.take(i as int), hybrid_match_encoder()),
                    forall|k: int| 0 <= k < i ==> (#[trigger] ms[k]).0.len() <= u32::MAX,
                decreases matches@.len() - i,
            {
                match push_hybrid_match(&mut out, &matches[i]) {
                    Ok(()) => {},
                    Err(e) => {
                        proof {
                            assert(ms[i as int] == hybrid_match_model(matches@[i as int]));
                            assert(ms[i as int].0.len() > u32::MAX);
                            let mo = hybrid_outcome_model(*outcome);
                            assert(mo matches HybridOutcomeModel::Matches { matches: x, .. } && x == ms);
                            assert(!hybrid_outcome_fits(mo));
                        }
                        return Err(e);
                    },
                }
                proof {
                    assert(ms.take(i + 1) =~= ms.take(i as int).push(ms[i as int]));
                    lemma_flat_push(ms.take(i as int), ms[i as int], hybrid_match_encoder());
                    assert(out@ =~= start + flat(ms.take(i + 1), hybrid_match_encoder()));
                }
                i = i + 1;
            }
            proof {
                assert(ms.take(ms.len() as int) =~= ms);
                assert(out@ =~= hybrid_outcome_bytes(hybrid_outcome_model(*outcome)));
            }
        },
        HybridOutcome::Abstained(a) => {
            out.push(2);
            out.push(absence_byte(a.lexical));
            out.push(absence_byte(a.vector));
            proof {
                assert(out@ =~= hybrid_outcome_bytes(hybrid_outcome_model(*outcome)));
            }
        },
    }
    Ok(out)
}

/// Appends the canonical bytes of a fusion request.
pub(crate) fn push_hybrid_request(out: &mut Vec<u8>, r: &HybridRequest)
    ensures
        final(out)@ == old(out)@ + hybrid_request_bytes(*r),
{
    push_u32_le(out, r.lexical_weight);
    push_u32_le(out, r.vector_weight);
    push_u64_le(out, r.limit as u64);
    proof {
        assert(final(out)@ =~= old(out)@ + hybrid_request_bytes(*r));
    }
}

// ---------------------------------------------------------------------------
// Decoding fused outcomes.

fn read_absence(b: &[u8], pos: usize, end: usize) -> (r: Result<HybridBranchAbsence, RetrievalProofError>)
    requires
        pos < end <= b@.len(),
    ensures
        r matches Ok(a) ==> absence_tag(a) == b@[pos as int],
        forall|a: HybridBranchAbsence| absence_tag(a) == b@[pos as int] ==> r == Ok::<
            HybridBranchAbsence,
            RetrievalProofError,
        >(a),
{
    let t = b[pos];
    if t == 1 {
        Ok(HybridBranchAbsence::LexicalNoCandidates)
    } else if t == 2 {
        Ok(HybridBranchAbsence::VectorNoCandidates)
    } else if t == 3 {
        Ok(HybridBranchAbsence::VectorBelowThreshold)
    } else if t == 4 {
        Ok(HybridBranchAbsence::VectorAmbiguous)
    } else {
        Err(RetrievalProofError::Invalid { reason: "unknown hybrid branch absence" })
    }
}

fn read_optional_absence(b: &[u8], pos: usize, end: usize) -> (r: Result<(Option<HybridBranchAbsence>, usize), RetrievalProofError>)
    requires
        pos <= end <= b@.len(),
    ensures
        r matches Ok((a, next)) ==> pos <= next <= end && b@.subrange(pos as int, next as int) == optional_absence_bytes(a),
        forall|a: Option<HybridBranchAbsence>|
            pos + optional_absence_bytes(a).len() <= end && #[trigger] optional_absence_bytes(a) == b@.subrange(
                pos as int,
                pos + optional_absence_bytes(a).len(),
            ) ==> r == Ok::<(Option<HybridBranchAbsence>, usize), RetrievalProofError>(
                (a, (pos + optional_absence_bytes(a).len()) as usize),
            ),
{
    proof {
        assert forall|a: Option<HybridBranchAbsence>|
            pos + optional_absence_bytes(a).len() <= end && #[trigger] optional_absence_bytes(a) == b@.subrange(
                pos as int,
                pos + optional_absence_bytes(a).len(),
            ) implies b@[pos as int] == (if a is Some { 1u8 } else { 0u8 }) && (a matches Some(x) ==> b@[pos + 1]
            == absence_tag(x)) by {
            assert(b@[pos as int] == optional_absence_bytes(a)[0]);
            if a is Some {
                assert(b@[pos + 1] == optional_absence_bytes(a)[1]);
            }
        }
    }
    if end - pos < 1 {
        return Err(RetrievalProofError::Invalid { reason: "truncated payload" });
    }
    let tag = b[pos];
    if tag == 0 {
        proof {
            assert(b@.subrange(pos as int, pos + 1) =~= optional_absence_bytes(None));
        }
        return Ok((None, pos + 1));
    }
    if tag != 1 {
        return Err(RetrievalProofError::Invalid { reason: "invalid optional hybrid absence tag" });
    }
    if end - pos < 2 {
        return Err(RetrievalProofError::Invalid { reason: "truncated payload" });
    }
    let a = match read_absence(b, pos + 1, end) {
        Ok(a) => a,
        Err(e) => {
            return Err(e);
        },
    };
    proof {
        assert(b@.subrange(pos as int, pos + 2) =~= optional_absence_bytes(Some(a)));
    }
    Ok((Some(a), pos + 2))
}

fn read_optional_u64(b: &[u8], pos: usize, end: usize) -> (r: Result<(Option<u64>, usize), RetrievalProofError>)
    requires
        pos <= end <= b@.len(),
    ensures
        r matches Ok((x, next)) ==> pos <= next <= end && b@.subrange(pos as int, next as int) == optional_u64_bytes(x),
        forall|x: Option<u64>|
            pos + optional_u64_bytes(x).len() <= end && #[trigger] optional_u64_bytes(x) == b@.subrange(
                pos as int,
                pos + optional_u64_bytes(x).len(),
            ) ==> r == Ok::<(Option<u64>, usize), RetrievalProofError>((x, (pos + optional_u64_bytes(x).len()) as usize)),
{
    proof {
        assert forall|x: Option<u64>|
            pos + optional_u64_bytes(x).len() <= end && #[trigger] optional_u64_bytes(x) == b@.subrange(
                pos as int,
                pos + optional_u64_bytes(x).len(),
            ) implies b@[pos as int] == (if x is Some { 1u8 } else { 0u8 }) && (x matches Some(v) ==> le_u64(
            b@.subrange(pos + 1, pos + 9),
        ) == v) by {
            assert(b@[pos as int] == optional_u64_bytes(x)[0]);
            if x is Some {
                let v = x->Some_0;
                assert(b@.subrange(pos + 1, pos + 9) =~= optional_u64_bytes(x).subrange(1, 9));
                assert(optional_u64_bytes(x).subrange(1, 9) =~= u64_le(v));
                lemma_u64_le_round_trip(v);
            }
        }
    }
    if end - pos < 1 {
        return Err(RetrievalProofError::Invalid { reason: "truncated payload" });
    }
    let tag = b[pos];
    if tag == 0 {
        proof {
            assert(b@.subrange(pos as int, pos + 1) =~= optional_u64_bytes(None));
        }
        return Ok((None, pos + 1));
    }
    if tag != 1 {
        return Err(RetrievalProofError::Invalid { reason: "invalid optional u64 tag" });
    }
    if end - pos < 9 {
        return Err(RetrievalProofError::Invalid { reason: "truncated payload" });
    }
    let v = read_u64_le(b, pos + 1);
    proof {
        crate::document::lemma_le_u64_bytes(b@.subrange(pos + 1, pos + 9));
        assert(b@.subrange(pos as int, pos + 9) =~= optional_u64_bytes(Some(v)));
    }
    Ok((Some(v), pos + 9))
}

/// A fused match that decoding can produce.
pub open spec fn hybrid_match_shape(m: (Seq<u8>, HybridExplanation)) -> bool {
    m.0.len() <= u32::MAX
}

pub open spec fn hybrid_match_shape_fn() -> spec_fn((Seq<u8>, HybridExplanation)) -> bool {
    |m: (Seq<u8>, HybridExplanation)| hybrid_match_shape(m)
}

/// The four counters of an explanation read back from their bytes.
fn read_counters(b: &[u8], pos: usize) -> (r: (u64, u64, u64, u64))
    requires
        pos + 32 <= b@.len(),
    ensures
        b@.subrange(pos as int, pos + 32) == u64_le(r.0) + u64_le(r.1) + u64_le(r.2) + u64_le(r.3),
        forall|e: HybridExplanation| #[trigger] counters_bytes(e) == b@.subrange(pos as int, pos + 32) ==> r == (
            e.lexical_contribution,
            e.vector_contribution,
            e.fusion_score,
            e.final_rank,
        ),
{
    let n = b.len();
    proof {
        assert(pos + 32 <= n);
    }
    let r = (read_u64_le(b, pos), read_u64_le(b, pos + 8), read_u64_le(b, pos + 16), read_u64_le(b, pos + 24));
    proof {
        crate::document::lemma_le_u64_bytes(b@.subrange(pos as int, pos + 8));
        crate::document::lemma_le_u64_bytes(b@.subrange(pos + 8, pos + 16));
        crate::document::lemma_le_u64_bytes(b@.subrange(pos + 16, pos + 24));
        crate::document::lemma_le_u64_bytes(b@.subrange(pos + 24, pos + 32));
        let w = b@.subrange(pos as int, pos + 32);
        assert(w =~= b@.subrange(pos as int, pos + 8) + b@.subrange(pos + 8, pos + 16) + b@.subrange(pos + 16, pos + 24)
            + b@.subrange(pos + 24, pos + 32));
        assert forall|e: HybridExplanation| #[trigger] counters_bytes(e) == w implies r == (
            e.lexical_contribution,
            e.vector_contribution,
            e.fusion_score,
            e.final_rank,
        ) by {
            let c = counters_bytes(e);
            assert(w.subrange(0, 8) =~= u64_le(e.lexical_contribution));
            assert(w.subrange(8, 16) =~= u64_le(e.vector_contribution));
            assert(w.subrange(16, 24) =~= u64_le(e.fusion_score));
            assert(w.subrange(24, 32) =~= u64_le(e.final_rank));
            assert(w.subrange(0, 8) =~= b@.subrange(pos as int, pos + 8));
            assert(w.subrange(8, 16) =~= b@.subrange(pos + 8, pos + 16));
            assert(w.subrange(16, 24) =~= b@.subrange(pos + 16, pos + 24));
            assert(w.subrange(24, 32) =~= b@.subrange(pos + 24, pos + 32));
            lemma_u64_le_round_trip(e.lexical_contribution);
            lemma_u64_le_round_trip(e.vector_contribution);
            lemma_u64_le_round_trip(e.fusion_score);
            lemma_u64_le_round_trip(e.final_rank);
        }
    }
    r
}

/// Where the parts of an explanation stand in its bytes.
proof fn lemma_explanation_layout(e: HybridExplanation)
    ensures
        ({
            let w = explanation_bytes(e);
            let q1 = optional_u64_bytes(e.lexical_rank).len() as int;
            let q2 = q1 + optional_score_bytes(e.lexical_score_nanos).len();
            let q3 = q2 + optional_u64_bytes(e.vector_rank).len();
            let q4 = q3 + optional_score_bytes(e.vector_score_nanos).len();
            &&& w.len() == q4 + 32
            &&& w.subrange(0, q1) == optional_u64_bytes(e.lexical_rank)
            &&& w.subrange(q1, q2) == optional_score_bytes(e.lexical_score_nanos)
            &&& w.subrange(q2, q3) == optional_u64_bytes(e.vector_rank)
            &&& w.subrange(q3, q4) == optional_score_bytes(e.vector_score_nanos)
            &&& w.subrange(q4, q4 + 32) == counters_bytes(e)
        }),
{
    let w = explanation_bytes(e);
    let q1 = optional_u64_bytes(e.lexical_rank).len() as int;
    let q2 = q1 + optional_score_bytes(e.lexical_score_nanos).len();
    let q3 = q2 + optional_u64_bytes(e.vector_rank).len();
    let q4 = q3 + optional_score_bytes(e.vector_score_nanos).len();
    assert(w.subrange(0, q1) =~= optional_u64_bytes(e.lexical_rank));
    assert(w.subrange(q1, q2) =~= optional_score_bytes(e.lexical_score_nanos));
    assert(w.subrange(q2, q3) =~= optional_u64_bytes(e.vector_rank));
    assert(w.subrange(q3, q4) =~= optional_score_bytes(e.vector_score_nanos));
    assert(w.subrange(q4, q4 + 32) =~= counters_bytes(e));
}

/// Where the fields of a fused match stand in the bytes at `pos`.
#[verifier::spinoff_prover]
#[verifier::rlimit(40)]
proof fn lemma_hybrid_match_parts(x: (Seq<u8>, HybridExplanation), b: Seq<u8>, pos: int, end: int)
    requires
        0 <= pos <= end <= b.len(),
        item_at(x, hybrid_match_encoder(), hybrid_match_shape_fn(), b, pos, end),
    ensures
        ({
            let e = x.1;
            let p0 = pos + 4 + x.0.len();
            let p1 = p0 + optional_u64_bytes(e.lexical_rank).len();
            let p2 = p1 + optional_score_bytes(e.lexical_score_nanos).len();
            let p3 = p2 + optional_u64_bytes(e.vector_rank).len();
            let p4 = p3 + optional_score_bytes(e.vector_score_nanos).len();
            &&& x.0.len() <= u32::MAX
            &&& p4 + 32 <= end
            &&& pos + hybrid_match_bytes(x).len() == p4 + 32
            &&& str32(x.0) == b.subrange(pos, p0)
            &&& optional_u64_bytes(e.lexical_rank) == b.subrange(p0, p1)
            &&& optional_score_bytes(e.lexical_score_nanos) == b.subrange(p1, p2)
            &&& optional_u64_bytes(e.vector_rank) == b.subrange(p2, p3)
            &&& optional_score_bytes(e.vector_score_nanos) == b.subrange(p3, p4)
            &&& counters_bytes(e) == b.subrange(p4, p4 + 32)
        }),
{
    let m = hybrid_match_bytes(x);
    assert(hybrid_match_encoder()(x) == m);
    assert(hybrid_match_shape(x));
    let e = x.1;
    let w = explanation_bytes(e);
    lemma_explanation_layout(e);
    let p0 = pos + 4 + x.0.len();
    assert(b.subrange(pos, pos + m.len()) == m);
    assert(b.subrange(pos, p0) =~= m.subrange(0, 4 + x.0.len() as int));
    assert(m.subrange(0, 4 + x.0.len() as int) =~= str32(x.0));
    assert(b.subrange(p0, p0 + w.len()) =~= m.subrange(4 + x.0.len() as int, m.len() as int));
    assert(m.subrange(4 + x.0.len() as int, m.len() as int) =~= w);
    let q1 = optional_u64_bytes(e.lexical_rank).len() as int;
    let q2 = q1 + optional_score_bytes(e.lexical_score_nanos).len();
    let q3 = q2 + optional_u64_bytes(e.vector_rank).len();
    let q4 = q3 + optional_score_bytes(e.vector_score_nanos).len();
    assert(b.subrange(p0, p0 + q1) =~= w.subrange(0, q1));
    assert(b.subrange(p0 + q1, p0 + q2) =~= w.subrange(q1, q2));
    assert(b.subrange(p0 + q2, p0 + q3) =~= w.subrange(q2, q3));
    assert(b.subrange(p0 + q3, p0 + q4) =~= w.subrange(q3, q4));
    assert(b.subrange(p0 + q4, p0 + q4 + 32) =~= w.subrange(q4, q4 + 32));
}

#[verifier::spinoff_prover]
#[verifier::rlimit(60)]
fn read_hybrid_match(b: &[u8], pos: usize, end: usize) -> (r: Result<(HybridMatch, usize), RetrievalProofError>)
    requires
        pos <= end <= b@.len(),
    ensures
        r matches Ok((m, next)) ==> pos <= next <= end && b@.subrange(pos as int, next as int) == hybrid_match_bytes(
            hybrid_match_model(m),
        ) && hybrid_match_shape(hybrid_match_model(m)),
        forall|x: (Seq<u8>, HybridExplanation)| #[trigger] item_at(x, hybrid_match_encoder(), hybrid_match_shape_fn(), b@, pos as int, end as int) ==> (
        r matches Ok((m, next)) && hybrid_match_model(m) == x && next == pos + hybrid_match_bytes(x).len()),
{
    let ghost has = exists|x: (Seq<u8>, HybridExplanation)| #[trigger] item_at(x, hybrid_match_encoder(), hybrid_match_shape_fn(), b@, pos as int, end as int);
    let ghost expected = choose|x: (Seq<u8>, HybridExplanation)| #[trigger] item_at(x, hybrid_match_encoder(), hybrid_match_shape_fn(), b@, pos as int, end as int);
    proof {
        if has {
            lemma_hybrid_match_parts(expected, b@, pos as int, end as int);
        }
    }
    let (ks, ke) = match read_str32(b, pos, end) {
        Ok(found) => found,
        Err(e) => {
            return Err(e);
        },
    };
    let key = crate::document::copy_range(b, ks, ke);
    proof {
        if has {
            lemma_str32_payload(b@, pos as int, expected.0);
        }
    }
    let (lexical_rank, p1) = match read_optional_u64(b, ke, end) {
        Ok(found) => found,
        Err(e) => {
            return Err(e);
        },
    };
    let (lexical_score_nanos, p2) = match read_optional_score(b, p1, end) {
        Ok(found) => found,
        Err(e) => {
            return Err(e);
        },
    };
    let (vector_rank, p3) = match read_optional_u64(b, p2, end) {
        Ok(found) => found,
        Err(e) => {
            return Err(e);
        },
    };
    let (vector_score_nanos, p4) = match read_optional_score(b, p3, end) {
        Ok(found) => found,
        Err(e) => {
            return Err(e);
        },
    };
    if end - p4 < 32 {
        return Err(RetrievalProofError::Invalid { reason: "truncated payload" });
    }
    let (lexical_contribution, vector_contribution, fusion_score, final_rank) = read_counters(b, p4);
    let explanation = HybridExplanation {
        lexical_rank,
        lexical_score_nanos,
        vector_rank,
        vector_score_nanos,
        lexical_contribution,
        vector_contribution,
        fusion_score,
        final_rank,
    };
    let next = p4 + 32;
    let m = HybridMatch { key, explanation };
    proof {
        let mm = hybrid_match_model(m);
        assert(b@.subrange(p4 as int, next as int) =~= counters_bytes(explanation));
        assert(b@.subrange(pos as int, next as int) =~= b@.subrange(pos as int, ke as int) + (b@.subrange(ke as int, p1 as int)
            + b@.subrange(p1 as int, p2 as int) + b@.subrange(p2 as int, p3 as int) + b@.subrange(p3 as int, p4 as int)
            + b@.subrange(p4 as int, next as int)));
        assert(b@.subrange(pos as int, next as int) =~= hybrid_match_bytes(mm));
        if has {
            assert(mm == expected);
        }
        assert forall|x: (Seq<u8>, HybridExplanation)| #[trigger] item_at(x, hybrid_match_encoder(), hybrid_match_shape_fn(), b@, pos as int, end as int) implies
            mm == x && next == pos + hybrid_match_bytes(x).len() by {
            lemma_hybrid_match_parts(x, b@, pos as int, end as int);
            lemma_str32_payload(b@, pos as int, x.0);
        }
    }
    Ok((m, next))
}

#[verifier::spinoff_prover]
#[verifier::rlimit(40)]
fn read_hybrid_matches(b: &[u8], p2: usize, end: usize, count: usize) -> (r: Result<(Vec<HybridMatch>, usize), RetrievalProofError>)
    requires
        p2 <= end <= b@.len(),
        count <= MAX_PROOF_COLLECTION_ITEMS,
    ensures
        r matches Ok((ms, cur)) ==> p2 <= cur <= end && ms@.len() == count
            && (forall|q: int| 0 <= q < count ==> hybrid_match_shape(#[trigger] hybrid_matches_model(ms@)[q]))
            && b@.subrange(p2 as int, cur as int) == flat(hybrid_matches_model(ms@), hybrid_match_encoder()),
        forall|e: Seq<(Seq<u8>, HybridExplanation)>| #[trigger] items_fill(e, hybrid_match_encoder(), hybrid_match_shape_fn(), b@, p2 as int, end as int, count as int)
            ==> (r matches Ok((ms, cur)) && hybrid_matches_model(ms@) == e && cur == p2 + flat(e, hybrid_match_encoder()).len()),
{
    let mut ms: Vec<HybridMatch> = Vec::new();
    let mut cur = p2;
    let mut i: usize = 0;
    proof {
        assert(b@.subrange(p2 as int, p2 as int) =~= Seq::<u8>::empty());
        assert(hybrid_matches_model(ms@) =~= Seq::<(Seq<u8>, HybridExplanation)>::empty());
        assert forall|e: Seq<(Seq<u8>, HybridExplanation)>| #[trigger] items_fill(e, hybrid_match_encoder(), hybrid_match_shape_fn(), b@, p2 as int, end as int, count as int) implies hybrid_matches_model(ms@) == e.take(0) by {
            assert(e.take(0) =~= Seq::<(Seq<u8>, HybridExplanation)>::empty());
        }
    }
    while i < count
        invariant
            p2 <= cur <= end <= b@.len(),
            i <= count,
            count <= MAX_PROOF_COLLECTION_ITEMS,
            ms@.len() == i,
            forall|q: int| 0 <= q < i ==> hybrid_match_shape(#[trigger] hybrid_matches_model(ms@)[q]),
            b@.subrange(p2 as int, cur as int) == flat(hybrid_matches_model(ms@), hybrid_match_encoder()),
            forall|e: Seq<(Seq<u8>, HybridExplanation)>| #[trigger] items_fill(e, hybrid_match_encoder(), hybrid_match_shape_fn(), b@, p2 as int, end as int, count as int)
                ==> hybrid_matches_model(ms@) == e.take(i as int),
        decreases count - i,
    {
        let (m, next) = match read_hybrid_match(b, cur, end) {
            Ok(found) => found,
            Err(err) => {
                proof {
                    assert forall|e: Seq<(Seq<u8>, HybridExplanation)>| #[trigger] items_fill(e, hybrid_match_encoder(), hybrid_match_shape_fn(), b@, p2 as int, end as int, count as int) implies false by {
                        lemma_items_step(e, hybrid_match_encoder(), hybrid_match_shape_fn(), b@, p2 as int, cur as int, end as int, count as int, i as int);
                    }
                }
                return Err(err);
            },
        };
        let ghost before = hybrid_matches_model(ms@);
        let ghost mm = hybrid_match_model(m);
        ms.push(m);
        proof {
            assert(hybrid_matches_model(ms@) =~= before.push(mm));
            lemma_flat_push(before, mm, hybrid_match_encoder());
            assert(b@.subrange(p2 as int, next as int) =~= b@.subrange(p2 as int, cur as int) + b@.subrange(cur as int, next as int));
            assert forall|e: Seq<(Seq<u8>, HybridExplanation)>| #[trigger] items_fill(e, hybrid_match_encoder(), hybrid_match_shape_fn(), b@, p2 as int, end as int, count as int) implies hybrid_matches_model(ms@) == e.take(i + 1) by {
                lemma_items_step(e, hybrid_match_encoder(), hybrid_match_shape_fn(), b@, p2 as int, cur as int, end as int, count as int, i as int);
            }
        }
        cur = next;
        i = i + 1;
    }
    proof {
        assert forall|e: Seq<(Seq<u8>, HybridExplanation)>| #[trigger] items_fill(e, hybrid_match_encoder(), hybrid_match_shape_fn(), b@, p2 as int, end as int, count as int)
            implies hybrid_matches_model(ms@) == e && cur == p2 + flat(e, hybrid_match_encoder()).len() by {
            assert(e.take(count as int) =~= e);
        }
    }
    Ok((ms, cur))
}

/// An outcome that decoding can produce.
pub open spec fn hybrid_outcome_shape(o: HybridOutcomeModel) -> bool {
    match o {
        HybridOutcomeModel::Matches { matches: ms, .. } => {
            &&& ms.len() <= MAX_PROOF_COLLECTION_ITEMS
            &&& forall|i: int| 0 <= i < ms.len() ==> hybrid_match_shape(#[trigger] ms[i])
        },
        HybridOutcomeModel::Abstained(_) => true,
    }
}

/// `o` is a decodable outcome whose canonical bytes are `region`.
#[verifier::opaque]
pub open spec fn hybrid_outcome_encodes(o: HybridOutcomeModel, region: Seq<u8>) -> bool {
    hybrid_outcome_shape(o) && hybrid_outcome_bytes(o) == region
}

pub(crate) proof fn lemma_hybrid_outcome_encodes(o: HybridOutcomeModel, region: Seq<u8>)
    ensures
        hybrid_outcome_encodes(o, region) == (hybrid_outcome_shape(o) && hybrid_outcome_bytes(o) == region),
{
    reveal(hybrid_outcome_encodes);
}

/// Where the parts of a decodable outcome stand in the bytes at `s`.
#[verifier::spinoff_prover]
#[verifier::rlimit(40)]
proof fn lemma_hybrid_outcome_parts(x: HybridOutcomeModel, b: Seq<u8>, s: int, end: int)
    requires
        0 <= s <= end <= b.len(),
        hybrid_outcome_encodes(x, b.subrange(s, end)),
    ensures
        end > s,
        x is Matches <==> b[s] == 1u8,
        x is Abstained <==> b[s] == 2u8,
        x matches HybridOutcomeModel::Abstained(a) ==> end == s + 3 && b[s + 1] == absence_tag(a.lexical) && b[s + 2]
            == absence_tag(a.vector),
        x matches HybridOutcomeModel::Matches { matches: ms, lexical_absence: la, vector_absence: va } ==> ({
            let p1 = s + 1 + optional_absence_bytes(la).len();
            let p2 = p1 + optional_absence_bytes(va).len();
            &&& p2 + 8 <= end
            &&& optional_absence_bytes(la) == b.subrange(s + 1, p1)
            &&& optional_absence_bytes(va) == b.subrange(p1, p2)
            &&& le_u64(b.subrange(p2, p2 + 8)) == ms.len()
            &&& ms.len() <= MAX_PROOF_COLLECTION_ITEMS
            &&& items_fill(ms, hybrid_match_encoder(), hybrid_match_shape_fn(), b, p2 + 8, end, ms.len() as int)
            &&& end == p2 + 8 + flat(ms, hybrid_match_encoder()).len()
        }),
{
    reveal(hybrid_outcome_encodes);
    let e = hybrid_outcome_bytes(x);
    assert(b.subrange(s, end) == e);
    assert(b[s] == e[0]);
    match x {
        HybridOutcomeModel::Abstained(a) => {
            assert(b[s + 1] == e[1]);
            assert(b[s + 2] == e[2]);
        },
        HybridOutcomeModel::Matches { matches: ms, lexical_absence: la, vector_absence: va } => {
            let q1 = 1 + optional_absence_bytes(la).len() as int;
            let q2 = q1 + optional_absence_bytes(va).len();
            let fm = flat(ms, hybrid_match_encoder());
            assert(e.len() == q2 + 8 + fm.len());
            assert(b.subrange(s + 1, s + q1) =~= e.subrange(1, q1));
            assert(e.subrange(1, q1) =~= optional_absence_bytes(la));
            assert(b.subrange(s + q1, s + q2) =~= e.subrange(q1, q2));
            assert(e.subrange(q1, q2) =~= optional_absence_bytes(va));
            assert(b.subrange(s + q2, s + q2 + 8) =~= e.subrange(q2, q2 + 8));
            assert(e.subrange(q2, q2 + 8) =~= u64_le(ms.len() as u64));
            lemma_u64_le_round_trip(ms.len() as u64);
            assert(b.subrange(s + q2 + 8, s + q2 + 8 + fm.len()) =~= e.subrange(q2 + 8, e.len() as int));
            assert(e.subrange(q2 + 8, e.len() as int) =~= fm);
            assert forall|i: int| 0 <= i < ms.len() implies hybrid_match_shape_fn()(#[trigger] ms[i]) by {
                assert(hybrid_match_shape(ms[i]));
            }
        },
    }
}

#[verifier::spinoff_prover]
#[verifier::rlimit(40)]
fn decode_hybrid_matches_outcome(b: &[u8], s: usize, end: usize) -> (r: Result<HybridOutcome, RetrievalProofError>)
    requires
        s < end <= b@.len(),
        b@[s as int] == 1,
    ensures
        r matches Ok(o) ==> hybrid_outcome_encodes(hybrid_outcome_model(o), b@.subrange(s as int, end as int)),
        forall|m: HybridOutcomeModel| #[trigger] hybrid_outcome_encodes(m, b@.subrange(s as int, end as int)) ==> (
        r matches Ok(o) && hybrid_outcome_model(o) == m),
{
    let ghost region = b@.subrange(s as int, end as int);
    let ghost has = exists|m: HybridOutcomeModel| #[trigger] hybrid_outcome_encodes(m, region);
    let ghost expected = choose|m: HybridOutcomeModel| #[trigger] hybrid_outcome_encodes(m, region);
    proof {
        if has {
            lemma_hybrid_outcome_parts(expected, b@, s as int, end as int);
        }
    }
    let (lexical_absence, p1) = match read_optional_absence(b, s + 1, end) {
        Ok(found) => found,
        Err(e) => {
            return Err(e);
        },
    };
    let (vector_absence, p2) = match read_optional_absence(b, p1, end) {
        Ok(found) => found,
        Err(e) => {
            return Err(e);
        },
    };
    let (count, p3) = match read_count(b, p2, end) {
        Ok(found) => found,
        Err(e) => {
            return Err(e);
        },
    };
    let (matches, cur) = match read_hybrid_matches(b, p3, end, count) {
        Ok(found) => found,
        Err(e) => {
            return Err(e);
        },
    };
    if cur != end {
        return Err(RetrievalProofError::Invalid { reason: "trailing payload bytes" });
    }
    let outcome = HybridOutcome::Matches { matches, lexical_absence, vector_absence };
    proof {
        crate::document::lemma_le_u64_bytes(b@.subrange(p2 as int, p3 as int));
        let o = hybrid_outcome_model(outcome);
        assert(region =~= seq![1u8] + b@.subrange(s + 1, p1 as int) + b@.subrange(p1 as int, p2 as int) + b@.subrange(
            p2 as int,
            p3 as int,
        ) + b@.subrange(p3 as int, cur as int));
        assert(region =~= hybrid_outcome_bytes(o));
        lemma_hybrid_outcome_encodes(o, region);
        assert forall|m: HybridOutcomeModel| #[trigger] hybrid_outcome_encodes(m, region) implies o == m by {
            lemma_hybrid_outcome_parts(m, b@, s as int, end as int);
        }
    }
    Ok(outcome)
}

/// Decodes the canonical bytes of a hybrid outcome from `b[s..end]`.
#[verifier::rlimit(30)]
pub(crate) fn decode_hybrid_outcome(b: &[u8], s: usize, end: usize) -> (r: Result<HybridOutcome, RetrievalProofError>)
    requires
        s <= end <= b@.len(),
    ensures
        r matches Ok(o) ==> hybrid_outcome_encodes(hybrid_outcome_model(o), b@.subrange(s as int, end as int)),
        forall|m: HybridOutcomeModel| #[trigger] hybrid_outcome_encodes(m, b@.subrange(s as int, end as int)) ==> (
        r matches Ok(o) && hybrid_outcome_model(o) == m),
{
    let ghost region = b@.subrange(s as int, end as int);
    let ghost has = exists|m: HybridOutcomeModel| #[trigger] hybrid_outcome_encodes(m, region);
    let ghost expected = choose|m: HybridOutcomeModel| #[trigger] hybrid_outcome_encodes(m, region);
    proof {
        if has {
            lemma_hybrid_outcome_parts(expected, b@, s as int, end as int);
        }
    }
    if s == end {
        return Err(RetrievalProofError::Invalid { reason: "truncated payload" });
    }
    let tag = b[s];
    if tag == 1 {
        return decode_hybrid_matches_outcome(b, s, end);
    }
    if tag != 2 {
        return Err(RetrievalProofError::Invalid { reason: "unknown hybrid outcome tag" });
    }
    if end - s < 2 {
        return Err(RetrievalProofError::Invalid { reason: "truncated payload" });
    }
    let lexical = match read_absence(b, s + 1, end) {
        Ok(a) => a,
        Err(e) => {
            return Err(e);
        },
    };
    if end - s < 3 {
        return Err(RetrievalProofError::Invalid { reason: "truncated payload" });
    }
    let vector = match read_absence(b, s + 2, end) {
        Ok(a) => a,
        Err(e) => {
            return Err(e);
        },
    };
    if end - s != 3 {
        return Err(RetrievalProofError::Invalid { reason: "trailing payload bytes" });
    }
    let outcome = HybridOutcome::Abstained(HybridAbstention { lexical, vector });
    proof {
        let o = hybrid_outcome_model(outcome);
        assert(region =~= hybrid_outcome_bytes(o));
        lemma_hybrid_outcome_encodes(o, region);
        assert forall|m: HybridOutcomeModel| #[trigger] hybrid_outcome_encodes(m, region) implies o == m by {
            lemma_hybrid_outcome_parts(m, b@, s as int, end as int);
        }
    }
    Ok(outcome)
}

// ---------------------------------------------------------------------------
// Fusion over models.

/// The ranked (key, score) pairs of a lexical outcome; empty when it
/// abstained.
pub open spec fn lex_model_branch(o: LexOutcomeModel) -> Seq<(Seq<u8>, i64)> {
    match o {
        LexOutcomeModel::Matches { matches: ms, .. } => Seq::new(ms.len(), |i: int| (ms[i].key, ms[i].score_nanos)),
        LexOutcomeModel::Abstained { .. } => Seq::empty(),
    }
}

pub open spec fn lex_model_absence(o: LexOutcomeModel) -> Option<HybridBranchAbsence> {
    match o {
        LexOutcomeModel::Matches { .. } => None,
        LexOutcomeModel::Abstained { .. } => Some(HybridBranchAbsence::LexicalNoCandidates),
    }
}

/// The ranked (key, score) pairs of an exact outcome; empty when it
/// abstained.
pub open spec fn exact_model_branch(o: ExactOutcomeModel) -> Seq<(Seq<u8>, i64)> {
    match o {
        ExactOutcomeModel::Matches { matches: ms, .. } => ms,
        ExactOutcomeModel::Abstained(_) => Seq::empty(),
    }
}

pub open spec fn exact_model_absence(o: ExactOutcomeModel) -> Option<HybridBranchAbsence> {
    match o {
        ExactOutcomeModel::Matches { .. } => None,
        ExactOutcomeModel::Abstained(a) => Some(
            match a.reason {
                ExactAbstentionReason::NoCandidates => HybridBranchAbsence::VectorNoCandidates,
                ExactAbstentionReason::BelowThreshold => HybridBranchAbsence::VectorBelowThreshold,
                ExactAbstentionReason::Ambiguous => HybridBranchAbsence::VectorAmbiguous,
            },
        ),
    }
}

/// How fusing the two branches under `fr` fails, if it does.
pub open spec fn fusion_error(lo: LexOutcomeModel, vo: ExactOutcomeModel, fr: HybridRequest) -> Option<HybridError> {
    if !weights_valid(fr) {
        Some(HybridError::InvalidWeight)
    } else if fr.limit == 0 {
        Some(HybridError::ZeroLimit)
    } else if lex_model_absence(lo) is Some && exact_model_absence(vo) is Some {
        None
    } else {
        fusion_fault(lex_model_branch(lo), exact_model_branch(vo))
    }
}

/// `o` is what fusing the two branches under `fr` gives.
pub open spec fn is_fusion_of(lo: LexOutcomeModel, vo: ExactOutcomeModel, fr: HybridRequest, o: HybridOutcomeModel) -> bool {
    let la = lex_model_absence(lo);
    let va = exact_model_absence(vo);
    if la is Some && va is Some {
        o == HybridOutcomeModel::Abstained(HybridAbstention { lexical: la->Some_0, vector: va->Some_0 })
    } else {
        &&& o matches HybridOutcomeModel::Matches { matches: ms, lexical_absence, vector_absence }
        &&& o->lexical_absence == la
        &&& o->vector_absence == va
        &&& fused_ranking(lex_model_branch(lo), exact_model_branch(vo), fr, o->Matches_matches)
    }
}

proof fn lemma_branch_models(lo: LexicalOutcome, vo: ExactRetrievalOutcome)
    ensures
        lexical_branch(lo) == lex_model_branch(lex_outcome_model(lo)),
        lexical_absence(lo) == lex_model_absence(lex_outcome_model(lo)),
        vector_branch(vo) == exact_model_branch(exact_outcome_model(vo)),
        vector_absence(vo) == exact_model_absence(exact_outcome_model(vo)),
{
    assert(lexical_branch(lo) =~= lex_model_branch(lex_outcome_model(lo)));
    assert(vector_branch(vo) =~= exact_model_branch(exact_outcome_model(vo)));
}

/// Fusion is a function of the branches: two outcomes that are both the
/// fusion of the same branches under the same request are equal.
pub proof fn lemma_fusion_deterministic(
    lo: LexOutcomeModel,
    vo: ExactOutcomeModel,
    fr: HybridRequest,
    a: HybridOutcomeModel,
    b: HybridOutcomeModel,
)
    requires
        is_fusion_of(lo, vo, fr, a),
        is_fusion_of(lo, vo, fr, b),
    ensures
        a == b,
{
    if !(lex_model_absence(lo) is Some && exact_model_absence(vo) is Some) {
        lemma_fused_ranking_unique(
            lex_model_branch(lo),
            exact_model_branch(vo),
            fr,
            a->Matches_matches,
            b->Matches_matches,
        );
    }
}

/// Whether two lists of fused matches are equal.
fn same_matches(x: &Vec<HybridMatch>, y: &Vec<HybridMatch>) -> (r: bool)
    ensures
        r == (hybrid_matches_model(x@) == hybrid_matches_model(y@)),
{
    if x.len() != y.len() {
        proof {
            assert(hybrid_matches_model(x@).len() != hybrid_matches_model(y@).len());
        }
        return false;
    }
    let mut i: usize = 0;
    while i < x.len()
        invariant
            x@.len() == y@.len(),
            i <= x@.len(),
            forall|k: int| 0 <= k < i ==> hybrid_match_model(#[trigger] x@[k]) == hybrid_match_model(y@[k]),
        decreases x@.len() - i,
    {
        let same_key = crate::hybrid::same_bytes(x[i].key.as_slice(), y[i].key.as_slice());
        if !same_key || x[i].explanation != y[i].explanation {
            proof {
                assert(hybrid_matches_model(x@)[i as int] != hybrid_matches_model(y@)[i as int]);
            }
            return false;
        }
        i = i + 1;
    }
    proof {
        assert(hybrid_matches_model(x@) =~= hybrid_matches_model(y@));
    }
    true
}

/// Whether two hybrid outcomes are equal.
pub(crate) fn same_outcome(a: &HybridOutcome, b: &HybridOutcome) -> (r: bool)
    ensures
        r == (hybrid_outcome_model(*a) == hybrid_outcome_model(*b)),
{
    match (a, b) {
        (
            HybridOutcome::Matches { matches: x, lexical_absence: xl, vector_absence: xv },
            HybridOutcome::Matches { matches: y, lexical_absence: yl, vector_absence: yv },
        ) => *xl == *yl && *xv == *yv && same_matches(x, y),
        (HybridOutcome::Abstained(x), HybridOutcome::Abstained(y)) => *x == *y,
        _ => false,
    }
}

// ---------------------------------------------------------------------------
// Hybrid-retrieval proofs.

/// Mathematical model of a hybrid-retrieval proof.
pub struct HybridProofModel {
    pub anchor: RetrievalProofAnchor,
    pub semantics_version: u16,
    pub lexical_request: LexRequestModel,
    pub lexical_outcome: LexOutcomeModel,
    pub vector_request: ExactRequestModel,
    pub vector_outcome: ExactOutcomeModel,
    pub fusion_request: HybridRequest,
    pub outcome: HybridOutcomeModel,
    pub proof_digest: Seq<u8>,
}

/// The request part of a hybrid payload: both branch executions, each part
/// behind its length, then the fusion request.
pub open spec fn hybrid_branches_bytes(m: HybridProofModel) -> Seq<u8> {
    prefixed(lex_request_bytes(m.lexical_request)) + prefixed(lex_outcome_bytes(m.lexical_outcome)) + prefixed(
        exact_request_bytes(m.vector_request),
    ) + prefixed(exact_outcome_bytes(m.vector_outcome)) + hybrid_request_bytes(m.fusion_request)
}

/// The payload of a hybrid proof.
pub open spec fn hybrid_proof_payload(m: HybridProofModel) -> Seq<u8> {
    proof_payload(hybrid_branches_bytes(m), hybrid_outcome_bytes(m.outcome))
}

/// The canonical bytes of a hybrid proof.
pub open spec fn hybrid_proof_bytes(m: HybridProofModel) -> Seq<u8> {
    proof_envelope(HYBRID_OPERATION, m.semantics_version, m.anchor, hybrid_proof_payload(m))
}

/// Why a hybrid proof cannot be encoded, checked in order: anchor,
/// semantics, lexical branch, exact branch, fusion, agreement of the fused
/// outcome, field lengths, size.
pub open spec fn hybrid_proof_fault(m: HybridProofModel) -> Option<RetrievalProofError> {
    if !anchor_canonical(m.anchor) {
        Some(RetrievalProofError::Invalid { reason: "noncanonical checkpoint identity" })
    } else if m.semantics_version != HYBRID_RETRIEVAL_SEMANTICS_VERSION {
        Some(
            RetrievalProofError::UnsupportedSemantics {
                found: m.semantics_version,
                supported: HYBRID_RETRIEVAL_SEMANTICS_VERSION,
            },
        )
    } else if !lex_request_valid(m.lexical_request) {
        Some(RetrievalProofError::Invalid { reason: "invalid lexical request" })
    } else if lex_outcome_fault(m.lexical_request, m.lexical_outcome) is Some {
        Some(RetrievalProofError::Invalid { reason: lex_outcome_fault(m.lexical_request, m.lexical_outcome)->Some_0 })
    } else if request_check(m.vector_request) is Err {
        Some(RetrievalProofError::Retrieval(request_check(m.vector_request)->Err_0))
    } else if outcome_fault(m.vector_request.limit, m.vector_outcome) is Some {
        Some(RetrievalProofError::Invalid { reason: outcome_fault(m.vector_request.limit, m.vector_outcome)->Some_0 })
    } else if fusion_error(m.lexical_outcome, m.vector_outcome, m.fusion_request) is Some {
        Some(RetrievalProofError::Hybrid(fusion_error(m.lexical_outcome, m.vector_outcome, m.fusion_request)->Some_0))
    } else if !is_fusion_of(m.lexical_outcome, m.vector_outcome, m.fusion_request, m.outcome) {
        Some(RetrievalProofError::Invalid { reason: "hybrid outcome does not match its branch outcomes" })
    } else if !lex_request_fits(m.lexical_request) || !lex_outcome_fits(m.lexical_outcome) || !hybrid_outcome_fits(
        m.outcome,
    ) {
        Some(RetrievalProofError::LengthOverflow)
    } else {
        envelope_size_fault(hybrid_proof_payload(m).len() as int)
    }
}

/// A proof with nothing that prevents encoding, carrying the digest that
/// its own bytes carry.
pub open spec fn hybrid_proof_complete(m: HybridProofModel) -> bool {
    hybrid_proof_fault(m) is None && m.proof_digest == hybrid_proof_bytes(m).subrange(100, 132)
}

/// A complete hybrid proof whose parts decoding can produce.
pub open spec fn hybrid_proof_valid(m: HybridProofModel) -> bool {
    &&& hybrid_proof_complete(m)
    &&& lex_request_shape(m.lexical_request)
    &&& lex_outcome_shape(m.lexical_outcome)
    &&& request_shape(m.vector_request)
    &&& hybrid_outcome_shape(m.outcome)
}

/// Canonical hybrid-retrieval proof with both complete branch executions.
#[derive(Clone, Debug, PartialEq, Eq)]
pub struct HybridRetrievalProof {
    pub(crate) anchor: RetrievalProofAnchor,
    pub(crate) semantics_version: u16,
    pub(crate) lexical_request: LexicalRequest,
    pub(crate) lexical_outcome: LexicalOutcome,
    pub(crate) vector_request: ExactRetrievalRequest,
    pub(crate) vector_outcome: ExactRetrievalOutcome,
    pub(crate) fusion_request: HybridRequest,
    pub(crate) outcome: HybridOutcome,
    pub(crate) proof_digest: [u8; 32],
}

impl View for HybridRetrievalProof {
    type V = HybridProofModel;

    closed spec fn view(&self) -> HybridProofModel {
        HybridProofModel {
            anchor: self.anchor,
            semantics_version: self.semantics_version,
            lexical_request: lex_request_model(self.lexical_request),
            lexical_outcome: lex_outcome_model(self.lexical_outcome),
            vector_request: exact_request_model(self.vector_request),
            vector_outcome: exact_outcome_model(self.vector_outcome),
            fusion_request: self.fusion_request,
            outcome: hybrid_outcome_model(self.outcome),
            proof_digest: self.proof_digest@,
        }
    }
}

/// Checks that the fused outcome is what fusing the branches gives.
fn check_fusion(
    lexical_outcome: &LexicalOutcome,
    vector_outcome: &ExactRetrievalOutcome,
    fusion_request: &HybridRequest,
    outcome: &HybridOutcome,
) -> (r: Result<(), RetrievalProofError>)
    ensures
        ({
            let lo = lex_outcome_model(*lexical_outcome);
            let vo = exact_outcome_model(*vector_outcome);
            match fusion_error(lo, vo, *fusion_request) {
                Some(e) => r == Err::<(), RetrievalProofError>(RetrievalProofError::Hybrid(e)),
                None => if is_fusion_of(lo, vo, *fusion_request, hybrid_outcome_model(*outcome)) {
                    r is Ok
                } else {
                    r == Err::<(), RetrievalProofError>(
                        RetrievalProofError::Invalid { reason: "hybrid outcome does not match its branch outcomes" },
                    )
                },
            }
        }),
{
    proof {
        lemma_branch_models(*lexical_outcome, *vector_outcome);
    }
    let fused = match fuse_hybrid(lexical_outcome, vector_outcome, fusion_request) {
        Ok(o) => o,
        Err(e) => {
            return Err(RetrievalProofError::Hybrid(e));
        },
    };
    let ghost lo = lex_outcome_model(*lexical_outcome);
    let ghost vo = exact_outcome_model(*vector_outcome);
    proof {
        let f = hybrid_outcome_model(fused);
        if !(lex_model_absence(lo) is Some && exact_model_absence(vo) is Some) {
            assert(f->Matches_matches == crate::hybrid::matches_model(fused->Matches_matches@));
        }
        assert(is_fusion_of(lo, vo, *fusion_request, f));
    }
    if !same_outcome(&fused, outcome) {
        proof {
            if is_fusion_of(lo, vo, *fusion_request, hybrid_outcome_model(*outcome)) {
                lemma_fusion_deterministic(lo, vo, *fusion_request, hybrid_outcome_model(fused), hybrid_outcome_model(*outcome));
            }
        }
        return Err(RetrievalProofError::Invalid { reason: "hybrid outcome does not match its branch outcomes" });
    }
    Ok(())
}

/// Appends `d` behind its 64-bit length.
fn push_prefixed(out: &mut Vec<u8>, d: &Vec<u8>)
    ensures
        final(out)@ == old(out)@ + prefixed(d@),
{
    push_u64_le(out, d.len() as u64);
    extend(out, d.as_slice());
    proof {
        assert(final(out)@ =~= old(out)@ + prefixed(d@));
    }
}

/// Encodes a hybrid proof after checking each embedded part and the fusion.
#[verifier::rlimit(40)]
fn encode_hybrid_proof(proof: &HybridRetrievalProof) -> (r: Result<Vec<u8>, RetrievalProofError>)
    ensures
        match hybrid_proof_fault(proof@) {
            Some(e) => r == Err::<Vec<u8>, RetrievalProofError>(e),
            None => r matches Ok(b) && b@ == hybrid_proof_bytes(proof@),
        },
{
    let ghost m = proof@;
    match validate_anchor(&proof.anchor) {
        Ok(()) => {},
        Err(e) => {
            return Err(e);
        },
    }
    if proof.semantics_version != HYBRID_RETRIEVAL_SEMANTICS_VERSION {
        return Err(
            RetrievalProofError::UnsupportedSemantics {
                found: proof.semantics_version,
                supported: HYBRID_RETRIEVAL_SEMANTICS_VERSION,
            },
        );
    }
    match validate_lexical_request(&proof.lexical_request) {
        Ok(()) => {},
        Err(e) => {
            return Err(e);
        },
    }
    match validate_lexical_outcome(&proof.lexical_request, &proof.lexical_outcome) {
        Ok(()) => {},
        Err(e) => {
            return Err(e);
        },
    }
    match check_request(&proof.vector_request) {
        Ok(()) => {},
        Err(e) => {
            return Err(e);
        },
    }
    match validate_outcome(proof.vector_request.limit, &proof.vector_outcome) {
        Ok(()) => {},
        Err(e) => {
            return Err(e);
        },
    }
    match check_fusion(&proof.lexical_outcome, &proof.vector_outcome, &proof.fusion_request, &proof.outcome) {
        Ok(()) => {},
        Err(e) => {
            return Err(e);
        },
    }
    let lexical_request = match encode_lexical_request(&proof.lexical_request) {
        Ok(b) => b,
        Err(e) => {
            return Err(e);
        },
    };
    let lexical_outcome = match encode_lexical_outcome(&proof.lexical_outcome) {
        Ok(b) => b,
        Err(e) => {
            return Err(e);
        },
    };
    proof {
        if m.vector_outcome is Matches {
            lemma_matches_fault_none(m.vector_outcome->matches, 0);
        }
    }
    let vector_request = encode_request(&proof.vector_request);
    let vector_outcome = encode_outcome(&proof.vector_outcome);
    let mut request: Vec<u8> = Vec::new();
    push_prefixed(&mut request, &lexical_request);
    push_prefixed(&mut request, &lexical_outcome);
    push_prefixed(&mut request, &vector_request);
    push_prefixed(&mut request, &vector_outcome);
    push_hybrid_request(&mut request, &proof.fusion_request);
    let outcome = match encode_hybrid_outcome(&proof.outcome) {
        Ok(b) => b,
        Err(e) => {
            return Err(e);
        },
    };
    proof {
        assert(request@ =~= hybrid_branches_bytes(m));
    }
    encode_envelope(HYBRID_OPERATION, proof.semantics_version, &proof.anchor, request.as_slice(), outcome.as_slice())
}

impl HybridRetrievalProof {
    /// Creates a canonical hybrid proof over a format-2 snapshot: both
    /// branches are checked, the fused outcome must be what fusing them
    /// gives, and the proof carries the digest of its own canonical bytes.
    #[verifier::spinoff_prover]
    #[verifier::rlimit(60)]
    pub fn new(
        snapshot: &SnapshotInfo,
        lexical_request: LexicalRequest,
        lexical_outcome: LexicalOutcome,
        vector_request: ExactRetrievalRequest,
        vector_outcome: ExactRetrievalOutcome,
        fusion_request: HybridRequest,
        outcome: HybridOutcome,
    ) -> (r: Result<Self, RetrievalProofError>)
        ensures
            snapshot.disk_format_version != 2 ==> r == Err::<Self, RetrievalProofError>(
                RetrievalProofError::SnapshotFormatMismatch,
            ),
            snapshot.disk_format_version == 2 ==> ({
                let draft = HybridProofModel {
                    anchor: RetrievalProofAnchor {
                        checkpoint_sequence: snapshot.checkpoint_sequence,
                        checkpoint_digest: snapshot.checkpoint_digest,
                        snapshot_digest: snapshot.snapshot_digest,
                    },
                    semantics_version: HYBRID_RETRIEVAL_SEMANTICS_VERSION,
                    lexical_request: lex_request_model(lexical_request),
                    lexical_outcome: lex_outcome_model(lexical_outcome),
                    vector_request: exact_request_model(vector_request),
                    vector_outcome: exact_outcome_model(vector_outcome),
                    fusion_request,
                    outcome: hybrid_outcome_model(outcome),
                    proof_digest: zero_digest(),
                };
                match hybrid_proof_fault(draft) {
                    Some(e) => r == Err::<Self, RetrievalProofError>(e),
                    None => r matches Ok(p) && p@ == (HybridProofModel {
                        proof_digest: hybrid_proof_bytes(draft).subrange(100, 132),
                        ..draft
                    }) && hybrid_proof_complete(p@),
                }
            }),
    {
        if snapshot.disk_format_version != 2 {
            return Err(RetrievalProofError::SnapshotFormatMismatch);
        }
        let mut proof = HybridRetrievalProof {
            anchor: RetrievalProofAnchor::from_snapshot(snapshot),
            semantics_version: HYBRID_RETRIEVAL_SEMANTICS_VERSION,
            lexical_request,
            lexical_outcome,
            vector_request,
            vector_outcome,
            fusion_request,
            outcome,
            proof_digest: [0u8; 32],
        };
        proof {
            assert(proof@.proof_digest =~= zero_digest());
        }
        let encoded = match encode_hybrid_proof(&proof) {
            Ok(b) => b,
            Err(e) => {
                return Err(e);
            },
        };
        proof.proof_digest = digest_at(encoded.as_slice(), 100);
        Ok(proof)
    }

    /// Encodes the complete proof into canonical portable bytes.
    pub fn to_bytes(&self) -> (r: Result<Vec<u8>, RetrievalProofError>)
        ensures
            match hybrid_proof_fault(self@) {
                Some(e) => r == Err::<Vec<u8>, RetrievalProofError>(e),
                None => r matches Ok(b) && b@ == hybrid_proof_bytes(self@),
            },
    {
        encode_hybrid_proof(self)
    }

    /// Returns the exact snapshot/log anchor.
    pub fn anchor(&self) -> (r: &RetrievalProofAnchor)
        ensures
            *r == self@.anchor,
    {
        &self.anchor
    }

    /// Returns the caller-pinnable anchor digest.
    pub fn anchor_digest(&self) -> (r: [u8; 32])
        ensures
            r == blake3_hash(anchor_domain() + anchor_identity_bytes(self@.anchor)),
    {
        self.anchor.digest()
    }

    /// Returns the bound hybrid semantics version.
    pub fn semantics_version(&self) -> (r: u16)
        ensures
            r == self@.semantics_version,
    {
        self.semantics_version
    }

    /// Returns the complete lexical branch request.
    pub fn lexical_request(&self) -> (r: &LexicalRequest)
        ensures
            lex_request_model(*r) == self@.lexical_request,
    {
        &self.lexical_request
    }

    /// Returns the complete lexical branch outcome.
    pub fn lexical_outcome(&self) -> (r: &LexicalOutcome)
        ensures
            lex_outcome_model(*r) == self@.lexical_outcome,
    {
        &self.lexical_outcome
    }

    /// Returns the complete exact-vector branch request.
    pub fn vector_request(&self) -> (r: &ExactRetrievalRequest)
        ensures
            exact_request_model(*r) == self@.vector_request,
    {
        &self.vector_request
    }

    /// Returns the complete exact-vector branch outcome.
    pub fn vector_outcome(&self) -> (r: &ExactRetrievalOutcome)
        ensures
            exact_outcome_model(*r) == self@.vector_outcome,
    {
        &self.vector_outcome
    }

    /// Returns the fusion request.
    pub fn fusion_request(&self) -> (r: &HybridRequest)
        ensures
            *r == self@.fusion_request,
    {
        &self.fusion_request
    }

    /// Returns the complete fused outcome.
    pub fn outcome(&self) -> (r: &HybridOutcome)
        ensures
            hybrid_outcome_model(*r) == self@.outcome,
    {
        &self.outcome
    }

    /// Returns the digest of the canonical proof bytes.
    pub fn proof_digest(&self) -> (r: [u8; 32])
        ensures
            r@ == self@.proof_digest,
    {
        self.proof_digest
    }
}

// ---------------------------------------------------------------------------
// Decoding hybrid proofs.

/// The branch executions and fusion request of a hybrid proof.
pub struct BranchesModel {
    pub lexical_request: LexRequestModel,
    pub lexical_outcome: LexOutcomeModel,
    pub vector_request: ExactRequestModel,
    pub vector_outcome: ExactOutcomeModel,
    pub fusion_request: HybridRequest,
}

pub open spec fn branches_of(m: HybridProofModel) -> BranchesModel {
    BranchesModel {
        lexical_request: m.lexical_request,
        lexical_outcome: m.lexical_outcome,
        vector_request: m.vector_request,
        vector_outcome: m.vector_outcome,
        fusion_request: m.fusion_request,
    }
}

/// The canonical bytes of branch executions and a fusion request.
pub open spec fn branches_bytes(t: BranchesModel) -> Seq<u8> {
    prefixed(lex_request_bytes(t.lexical_request)) + prefixed(lex_outcome_bytes(t.lexical_outcome)) + prefixed(
        exact_request_bytes(t.vector_request),
    ) + prefixed(exact_outcome_bytes(t.vector_outcome)) + hybrid_request_bytes(t.fusion_request)
}

/// `t` is decodable and its canonical bytes are `region`.
pub open spec fn branches_encode(t: BranchesModel, region: Seq<u8>) -> bool {
    &&& lex_request_shape(t.lexical_request)
    &&& lex_outcome_shape(t.lexical_outcome)
    &&& request_shape(t.vector_request)
    &&& outcome_shape(t.vector_outcome)
    &&& branches_bytes(t) == region
}

/// Where the parts of branch bytes stand at `s`.
#[verifier::spinoff_prover]
#[verifier::rlimit(40)]
proof fn lemma_branches_parts(t: BranchesModel, b: Seq<u8>, s: int, end: int)
    requires
        0 <= s <= end <= b.len(),
        branches_encode(t, b.subrange(s, end)),
    ensures
        ({
            let lr = lex_request_bytes(t.lexical_request);
            let lo = lex_outcome_bytes(t.lexical_outcome);
            let vr = exact_request_bytes(t.vector_request);
            let vo = exact_outcome_bytes(t.vector_outcome);
            let p1 = s + 8 + lr.len();
            let p2 = p1 + 8 + lo.len();
            let p3 = p2 + 8 + vr.len();
            let p4 = p3 + 8 + vo.len();
            &&& p4 + 16 == end
            &&& b.subrange(s, p1) == prefixed(lr)
            &&& b.subrange(p1, p2) == prefixed(lo)
            &&& b.subrange(p2, p3) == prefixed(vr)
            &&& b.subrange(p3, p4) == prefixed(vo)
            &&& lex_request_encodes(t.lexical_request, b.subrange(s + 8, p1))
            &&& lex_outcome_encodes(t.lexical_outcome, b.subrange(p1 + 8, p2))
            &&& request_encodes(t.vector_request, b.subrange(p2 + 8, p3))
            &&& outcome_encodes(t.vector_outcome, b.subrange(p3 + 8, p4))
            &&& hybrid_request_bytes(t.fusion_request) == b.subrange(p4, end)
        }),
{
    let lr = lex_request_bytes(t.lexical_request);
    let lo = lex_outcome_bytes(t.lexical_outcome);
    let vr = exact_request_bytes(t.vector_request);
    let vo = exact_outcome_bytes(t.vector_outcome);
    let w = branches_bytes(t);
    let q1 = 8 + lr.len() as int;
    let q2 = q1 + 8 + lo.len() as int;
    let q3 = q2 + 8 + vr.len() as int;
    let q4 = q3 + 8 + vo.len() as int;
    assert(w.len() == q4 + 16);
    assert(b.subrange(s, end) == w);
    assert(b.subrange(s, s + q1) =~= w.subrange(0, q1));
    assert(w.subrange(0, q1) =~= prefixed(lr));
    assert(b.subrange(s + 8, s + q1) =~= w.subrange(0, q1).subrange(8, q1));
    assert(prefixed(lr).subrange(8, q1) =~= lr);
    assert(b.subrange(s + q1, s + q2) =~= w.subrange(q1, q2));
    assert(w.subrange(q1, q2) =~= prefixed(lo));
    assert(b.subrange(s + q1 + 8, s + q2) =~= w.subrange(q1, q2).subrange(8, q2 - q1));
    assert(prefixed(lo).subrange(8, q2 - q1) =~= lo);
    assert(b.subrange(s + q2, s + q3) =~= w.subrange(q2, q3));
    assert(w.subrange(q2, q3) =~= prefixed(vr));
    assert(b.subrange(s + q2 + 8, s + q3) =~= w.subrange(q2, q3).subrange(8, q3 - q2));
    assert(prefixed(vr).subrange(8, q3 - q2) =~= vr);
    assert(b.subrange(s + q3, s + q4) =~= w.subrange(q3, q4));
    assert(w.subrange(q3, q4) =~= prefixed(vo));
    assert(b.subrange(s + q3 + 8, s + q4) =~= w.subrange(q3, q4).subrange(8, q4 - q3));
    assert(prefixed(vo).subrange(8, q4 - q3) =~= vo);
    assert(b.subrange(s + q4, end) =~= w.subrange(q4, q4 + 16));
    assert(w.subrange(q4, q4 + 16) =~= hybrid_request_bytes(t.fusion_request));
    lemma_lex_outcome_encodes_intro(t.lexical_outcome, lo);
}

/// Reads a fusion request at `pos`.
fn read_hybrid_request(b: &[u8], pos: usize, end: usize) -> (r: Result<(HybridRequest, usize), RetrievalProofError>)
    requires
        pos <= end <= b@.len(),
    ensures
        r matches Ok((q, next)) ==> next == pos + 16 && next <= end && b@.subrange(pos as int, next as int)
            == hybrid_request_bytes(q),
        forall|q: HybridRequest|
            pos + 16 <= end && #[trigger] hybrid_request_bytes(q) == b@.subrange(pos as int, pos + 16) ==> r == Ok::<
                (HybridRequest, usize),
                RetrievalProofError,
            >((q, (pos + 16) as usize)),
{
    proof {
        assert forall|q: HybridRequest|
            pos + 16 <= end && #[trigger] hybrid_request_bytes(q) == b@.subrange(pos as int, pos + 16) implies le_u32(
                b@.subrange(pos as int, pos + 4),
            ) == q.lexical_weight && le_u32(b@.subrange(pos + 4, pos + 8)) == q.vector_weight && le_u64(
                b@.subrange(pos + 8, pos + 16),
            ) == q.limit by {
            let w = hybrid_request_bytes(q);
            assert(b@.subrange(pos as int, pos + 4) =~= w.subrange(0, 4));
            assert(w.subrange(0, 4) =~= u32_le(q.lexical_weight));
            assert(b@.subrange(pos + 4, pos + 8) =~= w.subrange(4, 8));
            assert(w.subrange(4, 8) =~= u32_le(q.vector_weight));
            assert(b@.subrange(pos + 8, pos + 16) =~= w.subrange(8, 16));
            assert(w.subrange(8, 16) =~= u64_le(q.limit as u64));
            lemma_u32_le_round_trip(q.lexical_weight);
            lemma_u32_le_round_trip(q.vector_weight);
            lemma_u64_le_round_trip(q.limit as u64);
        }
    }
    if end - pos < 16 {
        return Err(RetrievalProofError::Invalid { reason: "truncated payload" });
    }
    let lexical_weight = read_u32_le(b, pos);
    let vector_weight = read_u32_le(b, pos + 4);
    let limit = read_u64_le(b, pos + 8);
    if limit > usize::MAX as u64 {
        return Err(RetrievalProofError::LengthOverflow);
    }
    let q = HybridRequest { lexical_weight, vector_weight, limit: limit as usize };
    proof {
        crate::retrieval_proof::lemma_le_u32_bytes(b@.subrange(pos as int, pos + 4));
        crate::retrieval_proof::lemma_le_u32_bytes(b@.subrange(pos + 4, pos + 8));
        crate::document::lemma_le_u64_bytes(b@.subrange(pos + 8, pos + 16));
        assert(b@.subrange(pos as int, pos + 16) =~= b@.subrange(pos as int, pos + 4) + b@.subrange(pos + 4, pos + 8)
            + b@.subrange(pos + 8, pos + 16));
        assert(b@.subrange(pos as int, pos + 16) =~= hybrid_request_bytes(q));
    }
    Ok((q, pos + 16))
}

/// Decodes the branch executions and fusion request from `b[s..end]`.
#[verifier::spinoff_prover]
#[verifier::rlimit(100)]
fn decode_hybrid_branches(b: &[u8], s: usize, end: usize) -> (r: Result<
    (LexicalRequest, LexicalOutcome, ExactRetrievalRequest, ExactRetrievalOutcome, HybridRequest),
    RetrievalProofError,
>)
    requires
        s <= end <= b@.len(),
    ensures
        r matches Ok((lr, lo, vr, vo, fr)) ==> branches_encode(
            BranchesModel {
                lexical_request: lex_request_model(lr),
                lexical_outcome: lex_outcome_model(lo),
                vector_request: exact_request_model(vr),
                vector_outcome: exact_outcome_model(vo),
                fusion_request: fr,
            },
            b@.subrange(s as int, end as int),
        ),
        forall|t: BranchesModel| #[trigger] branches_encode(t, b@.subrange(s as int, end as int)) ==> (r matches Ok(
            (lr, lo, vr, vo, fr),
        ) && lex_request_model(lr) == t.lexical_request && lex_outcome_model(lo) == t.lexical_outcome
            && exact_request_model(vr) == t.vector_request && exact_outcome_model(vo) == t.vector_outcome && fr
            == t.fusion_request),
{
    let ghost region = b@.subrange(s as int, end as int);
    let ghost has = exists|t: BranchesModel| #[trigger] branches_encode(t, region);
    let ghost expected = choose|t: BranchesModel| #[trigger] branches_encode(t, region);
    proof {
        if has {
            lemma_branches_parts(expected, b@, s as int, end as int);
        }
    }
    let (a0, a1) = match take_prefixed(b, s, end) {
        Ok(found) => found,
        Err(e) => {
            return Err(e);
        },
    };
    let lexical_request = match decode_lexical_request(b, a0, a1) {
        Ok(q) => q,
        Err(e) => {
            return Err(e);
        },
    };
    let (b0, b1) = match take_prefixed(b, a1, end) {
        Ok(found) => found,
        Err(e) => {
            return Err(e);
        },
    };
    let lexical_outcome = match decode_lexical_outcome(b, b0, b1) {
        Ok(o) => o,
        Err(e) => {
            return Err(e);
        },
    };
    let (c0, c1) = match take_prefixed(b, b1, end) {
        Ok(found) => found,
        Err(e) => {
            return Err(e);
        },
    };
    let vector_request = match decode_request(b, c0, c1) {
        Ok(q) => q,
        Err(e) => {
            return Err(e);
        },
    };
    let (d0, d1) = match take_prefixed(b, c1, end) {
        Ok(found) => found,
        Err(e) => {
            return Err(e);
        },
    };
    let vector_outcome = match decode_outcome(b, d0, d1) {
        Ok(o) => o,
        Err(e) => {
            return Err(e);
        },
    };
    let (fusion_request, next) = match read_hybrid_request(b, d1, end) {
        Ok(found) => found,
        Err(e) => {
            return Err(e);
        },
    };
    if next != end {
        return Err(RetrievalProofError::Invalid { reason: "trailing payload bytes" });
    }
    proof {
        let t = BranchesModel {
            lexical_request: lex_request_model(lexical_request),
            lexical_outcome: lex_outcome_model(lexical_outcome),
            vector_request: exact_request_model(vector_request),
            vector_outcome: exact_outcome_model(vector_outcome),
            fusion_request,
        };
        lemma_lex_outcome_encodes_elim(t.lexical_outcome, b@.subrange(b0 as int, b1 as int));
        assert(region =~= b@.subrange(s as int, a1 as int) + b@.subrange(a1 as int, b1 as int) + b@.subrange(
            b1 as int,
            c1 as int,
        ) + b@.subrange(c1 as int, d1 as int) + b@.subrange(d1 as int, end as int));
        assert(region =~= branches_bytes(t));
        assert forall|x: BranchesModel| #[trigger] branches_encode(x, region) implies lex_request_model(lexical_request)
            == x.lexical_request && lex_outcome_model(lexical_outcome) == x.lexical_outcome && exact_request_model(
            vector_request,
        ) == x.vector_request && exact_outcome_model(vector_outcome) == x.vector_outcome && fusion_request
            == x.fusion_request by {
            lemma_branches_parts(x, b@, s as int, end as int);
        }
    }
    Ok((lexical_request, lexical_outcome, vector_request, vector_outcome, fusion_request))
}

proof fn lemma_prefixed_inner(e: Seq<u8>, a: int, d: Seq<u8>)
    requires
        0 <= a,
        a + 8 + d.len() <= e.len(),
        e.subrange(a, a + 8 + d.len()) == prefixed(d),
    ensures
        e.subrange(a + 8, a + 8 + d.len()) == d,
{
    assert(e.subrange(a + 8, a + 8 + d.len()) =~= e.subrange(a, a + 8 + d.len()).subrange(8, 8 + d.len() as int));
    assert(prefixed(d).subrange(8, 8 + d.len() as int) =~= d);
}

/// `m` is a hybrid proof that decoding can produce, and `e` its canonical
/// bytes.
#[verifier::opaque]
pub open spec fn hybrid_proof_decodes(m: HybridProofModel, e: Seq<u8>) -> bool {
    hybrid_proof_valid(m) && hybrid_proof_bytes(m) == e
}

/// Where the branches and the outcome stand in the bytes of a hybrid proof.
#[verifier::spinoff_prover]
#[verifier::rlimit(60)]
proof fn lemma_hybrid_payload_parts(m: HybridProofModel, e: Seq<u8>)
    requires
        hybrid_proof_bytes(m) == e,
        132 + hybrid_proof_payload(m).len() <= u64::MAX,
    ensures
        ({
            let bb = hybrid_branches_bytes(m);
            let ob = hybrid_outcome_bytes(m.outcome);
            &&& e.len() == 148 + bb.len() + ob.len()
            &&& e.subrange(132, 140 + bb.len() as int) == prefixed(bb)
            &&& e.subrange(140, 140 + bb.len() as int) == bb
            &&& e.subrange(140 + bb.len() as int, e.len() as int) == prefixed(ob)
            &&& e.subrange(148 + bb.len() as int, e.len() as int) == ob
            &&& le_u64(e.subrange(16, 24)) == m.anchor.checkpoint_sequence
            &&& digest_or_zero(m.anchor.checkpoint_digest) == e.subrange(24, 56)
            &&& m.anchor.snapshot_digest@ == e.subrange(56, 88)
        }),
{
    let bb = hybrid_branches_bytes(m);
    let ob = hybrid_outcome_bytes(m.outcome);
    let payload = hybrid_proof_payload(m);
    lemma_envelope_layout(HYBRID_OPERATION, m.semantics_version, m.anchor, payload);
    let tail = e.subrange(132, e.len() as int);
    assert(tail == prefixed(bb) + prefixed(ob));
    assert(e.subrange(132, 140 + bb.len() as int) =~= tail.subrange(0, 8 + bb.len() as int));
    assert(tail.subrange(0, 8 + bb.len() as int) =~= prefixed(bb));
    assert(e.subrange(140, 140 + bb.len() as int) =~= bb);
    assert(e.subrange(140 + bb.len() as int, e.len() as int) =~= tail.subrange(8 + bb.len() as int, tail.len() as int));
    assert(tail.subrange(8 + bb.len() as int, tail.len() as int) =~= prefixed(ob));
    assert(e.subrange(148 + bb.len() as int, e.len() as int) =~= ob);
}

/// Where the parts of a decodable hybrid proof stand in its bytes.
proof fn lemma_hybrid_parts(m: HybridProofModel, e: Seq<u8>)
    requires
        hybrid_proof_decodes(m, e),
    ensures
        ({
            let bb = hybrid_branches_bytes(m);
            let ob = hybrid_outcome_bytes(m.outcome);
            &&& e.len() == 148 + bb.len() + ob.len()
            &&& e.subrange(132, 140 + bb.len() as int) == prefixed(bb)
            &&& e.subrange(140 + bb.len() as int, e.len() as int) == prefixed(ob)
            &&& branches_encode(branches_of(m), bb)
            &&& hybrid_outcome_encodes(m.outcome, ob)
            &&& le_u64(e.subrange(16, 24)) == m.anchor.checkpoint_sequence
            &&& digest_or_zero(m.anchor.checkpoint_digest) == e.subrange(24, 56)
            &&& m.anchor.snapshot_digest@ == e.subrange(56, 88)
            &&& anchor_canonical(m.anchor)
            &&& m.semantics_version == HYBRID_RETRIEVAL_SEMANTICS_VERSION
            &&& m.proof_digest == e.subrange(100, 132)
        }),
{
    reveal(hybrid_proof_decodes);
    assert(hybrid_proof_fault(m) is None);
    lemma_hybrid_payload_parts(m, e);
    lemma_outcome_fault_shape(m.vector_request.limit, m.vector_outcome);
    lemma_hybrid_outcome_encodes(m.outcome, hybrid_outcome_bytes(m.outcome));
    assert(hybrid_branches_bytes(m) == branches_bytes(branches_of(m)));
}

/// A proof whose parts pass every check and whose payload fits the size
/// bound has nothing that prevents encoding.
#[verifier::spinoff_prover]
#[verifier::rlimit(40)]
proof fn lemma_hybrid_fault_none(m: HybridProofModel)
    requires
        anchor_canonical(m.anchor),
        m.semantics_version == HYBRID_RETRIEVAL_SEMANTICS_VERSION,
        branches_encode(branches_of(m), hybrid_branches_bytes(m)),
        hybrid_outcome_shape(m.outcome),
        lex_request_valid(m.lexical_request),
        lex_outcome_fault(m.lexical_request, m.lexical_outcome) is None,
        request_check(m.vector_request) is Ok,
        outcome_fault(m.vector_request.limit, m.vector_outcome) is None,
        fusion_error(m.lexical_outcome, m.vector_outcome, m.fusion_request) is None,
        is_fusion_of(m.lexical_outcome, m.vector_outcome, m.fusion_request, m.outcome),
        envelope_size_fault(hybrid_proof_payload(m).len() as int) is None,
    ensures
        hybrid_proof_fault(m) is None,
{
    lemma_lex_outcome_shape_fits(m.lexical_outcome);
    assert(lex_request_fits(m.lexical_request));
    if m.outcome is Matches {
        let ms = m.outcome->Matches_matches;
        assert forall|i: int| 0 <= i < ms.len() implies (#[trigger] ms[i]).0.len() <= u32::MAX by {
            assert(hybrid_match_shape(ms[i]));
        }
    }
    assert(hybrid_outcome_fits(m.outcome));
}

/// A proof assembled from verified bytes is decodable and encodes them.
#[verifier::spinoff_prover]
#[verifier::rlimit(40)]
proof fn lemma_hybrid_assembled(m: HybridProofModel, e: Seq<u8>, re: int)
    requires
        envelope_error(e, HYBRID_OPERATION, HYBRID_RETRIEVAL_SEMANTICS_VERSION) is None,
        m.semantics_version == HYBRID_RETRIEVAL_SEMANTICS_VERSION,
        m.anchor.checkpoint_sequence == le_u64(e.subrange(16, 24)),
        anchor_canonical(m.anchor),
        digest_or_zero(m.anchor.checkpoint_digest) == e.subrange(24, 56),
        m.anchor.snapshot_digest@ == e.subrange(56, 88),
        m.proof_digest == e.subrange(100, 132),
        140 <= re <= e.len(),
        e.subrange(132, re) == prefixed(hybrid_branches_bytes(m)),
        e.subrange(re, e.len() as int) == prefixed(hybrid_outcome_bytes(m.outcome)),
        branches_encode(branches_of(m), hybrid_branches_bytes(m)),
        hybrid_outcome_shape(m.outcome),
        lex_request_valid(m.lexical_request),
        lex_outcome_fault(m.lexical_request, m.lexical_outcome) is None,
        request_check(m.vector_request) is Ok,
        outcome_fault(m.vector_request.limit, m.vector_outcome) is None,
        fusion_error(m.lexical_outcome, m.vector_outcome, m.fusion_request) is None,
        is_fusion_of(m.lexical_outcome, m.vector_outcome, m.fusion_request, m.outcome),
    ensures
        hybrid_proof_decodes(m, e),
{
    reveal(hybrid_proof_decodes);
    assert(e.subrange(132, e.len() as int) =~= e.subrange(132, re) + e.subrange(re, e.len() as int));
    assert(e.subrange(132, e.len() as int) =~= hybrid_proof_payload(m));
    lemma_envelope_from_parts(e, m.anchor, HYBRID_OPERATION, m.semantics_version);
    lemma_hybrid_fault_none(m);
}

impl HybridRetrievalProof {
    /// Verifies and decodes canonical hybrid proof bytes: the header checks
    /// in order, then exactly the bytes of decodable proofs decode, each to
    /// the proof they encode.
    #[verifier::spinoff_prover]
    #[verifier::rlimit(100)]
    pub fn from_bytes(encoded: &[u8]) -> (r: Result<Self, RetrievalProofError>)
        ensures
            envelope_error(encoded@, HYBRID_OPERATION, HYBRID_RETRIEVAL_SEMANTICS_VERSION) matches Some(h) ==> r
                == Err::<Self, RetrievalProofError>(h),
            envelope_error(encoded@, HYBRID_OPERATION, HYBRID_RETRIEVAL_SEMANTICS_VERSION) is None ==> {
                &&& r matches Ok(p) ==> hybrid_proof_decodes(p@, encoded@)
                &&& forall|m: HybridProofModel| #[trigger] hybrid_proof_decodes(m, encoded@) ==> (r matches Ok(p) && p@
                    == m)
            },
    {
        let ghost e = encoded@;
        let (anchor, semantics, digest) = match decode_envelope(
            encoded,
            HYBRID_OPERATION,
            HYBRID_RETRIEVAL_SEMANTICS_VERSION,
        ) {
            Ok(found) => found,
            Err(err) => {
                return Err(err);
            },
        };
        let end = encoded.len();
        let ghost has = exists|m: HybridProofModel| #[trigger] hybrid_proof_decodes(m, e);
        let ghost expected = choose|m: HybridProofModel| #[trigger] hybrid_proof_decodes(m, e);
        proof {
            if has {
                lemma_hybrid_parts(expected, e);
            }
        }
        let (rs, re) = match take_prefixed(encoded, 132, end) {
            Ok(found) => found,
            Err(err) => {
                return Err(err);
            },
        };
        let (os, oe) = match take_prefixed(encoded, re, end) {
            Ok(found) => found,
            Err(err) => {
                return Err(err);
            },
        };
        if oe != end {
            return Err(RetrievalProofError::Invalid { reason: "trailing payload bytes" });
        }
        proof {
            if has {
                let bb = hybrid_branches_bytes(expected);
                let ob = hybrid_outcome_bytes(expected.outcome);
                assert(rs == 140 && re == 140 + bb.len());
                lemma_prefixed_inner(e, 132, bb);
                lemma_prefixed_inner(e, re as int, ob);
            }
        }
        let (lexical_request, lexical_outcome, vector_request, vector_outcome, fusion_request) = match decode_hybrid_branches(
            encoded,
            rs,
            re,
        ) {
            Ok(found) => found,
            Err(err) => {
                return Err(err);
            },
        };
        let outcome = match decode_hybrid_outcome(encoded, os, oe) {
            Ok(o) => o,
            Err(err) => {
                return Err(err);
            },
        };
        proof {
            if has {
                reveal(hybrid_proof_decodes);
            }
        }
        match validate_lexical_request(&lexical_request) {
            Ok(()) => {},
            Err(err) => {
                return Err(err);
            },
        }
        match validate_lexical_outcome(&lexical_request, &lexical_outcome) {
            Ok(()) => {},
            Err(err) => {
                return Err(err);
            },
        }
        match check_request(&vector_request) {
            Ok(()) => {},
            Err(err) => {
                return Err(err);
            },
        }
        match validate_outcome(vector_request.limit, &vector_outcome) {
            Ok(()) => {},
            Err(err) => {
                return Err(err);
            },
        }
        match check_fusion(&lexical_outcome, &vector_outcome, &fusion_request, &outcome) {
            Ok(()) => {},
            Err(err) => {
                return Err(err);
            },
        }
        let proof = HybridRetrievalProof {
            anchor,
            semantics_version: semantics,
            lexical_request,
            lexical_outcome,
            vector_request,
            vector_outcome,
            fusion_request,
            outcome,
            proof_digest: digest,
        };
        proof {
            let m = proof@;
            assert(e.subrange(rs as int, re as int) =~= e.subrange(rs as int, re as int));
            assert(branches_of(m) == BranchesModel {
                lexical_request: lex_request_model(proof.lexical_request),
                lexical_outcome: lex_outcome_model(proof.lexical_outcome),
                vector_request: exact_request_model(proof.vector_request),
                vector_outcome: exact_outcome_model(proof.vector_outcome),
                fusion_request: proof.fusion_request,
            });
            assert(hybrid_branches_bytes(m) == branches_bytes(branches_of(m)));
            lemma_hybrid_outcome_encodes(m.outcome, e.subrange(os as int, oe as int));
            assert(e.subrange(132, re as int) == prefixed(e.subrange(rs as int, re as int)));
            assert(e.subrange(re as int, e.len() as int) == prefixed(e.subrange(os as int, oe as int)));
            lemma_hybrid_assembled(m, e, re as int);
            assert forall|x: HybridProofModel| #[trigger] hybrid_proof_decodes(x, e) implies m == x by {
                lemma_hybrid_parts(x, e);
                let bb = hybrid_branches_bytes(x);
                let ob = hybrid_outcome_bytes(x.outcome);
                assert(rs == 140 && re == 140 + bb.len());
                lemma_prefixed_inner(e, 132, bb);
                assert(os == re + 8 && oe == re + 8 + ob.len());
                lemma_prefixed_inner(e, re as int, ob);
                assert(branches_encode(branches_of(x), e.subrange(rs as int, re as int)));
                assert(hybrid_outcome_encodes(x.outcome, e.subrange(os as int, oe as int)));
                lemma_anchor_equal(m.anchor, x.anchor);
            }
        }
        Ok(proof)
    }
}

/// Decoding the bytes of a hybrid proof that decoding can produce gives the
/// proof back: the bytes pass every header check and decode to exactly that
/// proof.
pub proof fn lemma_hybrid_proof_round_trip(m: HybridProofModel)
    requires
        hybrid_proof_valid(m),
    ensures
        envelope_error(hybrid_proof_bytes(m), HYBRID_OPERATION, HYBRID_RETRIEVAL_SEMANTICS_VERSION) is None,
        hybrid_proof_decodes(m, hybrid_proof_bytes(m)),
{
    reveal(hybrid_proof_decodes);
    let payload = hybrid_proof_payload(m);
    lemma_envelope_layout(HYBRID_OPERATION, m.semantics_version, m.anchor, payload);
    lemma_u64_le_round_trip(m.anchor.checkpoint_sequence);
    if m.anchor.checkpoint_sequence == 0 {
        assert(m.anchor.checkpoint_digest is None);
    }
}


/// What every hybrid proof that decodes holds: semantics version 1, each
/// branch request and outcome valid as in a standalone lexical or exact
/// proof, fusion of the branches under the fusion request raising no error,
/// and the proven outcome being that fusion (which is unique, by
/// `lemma_fusion_deterministic`).
pub proof fn lemma_hybrid_proof_decoded(m: HybridProofModel, e: Seq<u8>)
    requires
        hybrid_proof_decodes(m, e),
    ensures
        m.semantics_version == HYBRID_RETRIEVAL_SEMANTICS_VERSION,
        anchor_canonical(m.anchor),
        lex_request_valid(m.lexical_request),
        lex_outcome_fault(m.lexical_request, m.lexical_outcome) is None,
        request_check(m.vector_request) is Ok,
        outcome_fault(m.vector_request.limit, m.vector_outcome) is None,
        fusion_error(m.lexical_outcome, m.vector_outcome, m.fusion_request) is None,
        is_fusion_of(m.lexical_outcome, m.vector_outcome, m.fusion_request, m.outcome),
{
    reveal(hybrid_proof_decodes);
}

} // verus!
