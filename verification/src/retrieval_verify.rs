//! The decisions of offline retrieval-proof verification: bounded proof
//! reading, the caller-pinned anchor, the binding of a snapshot witness,
//! exact replay against the witness's vectors, and the comparison of every
//! replayed outcome with the proven one.
use vstd::prelude::*;

use crate::canonical::{
    retrieve_exact_with_clock, retrieves_to, DurableVectorRecord, ExactRetrievalClock, ExactRetrievalLimits,
    ExactRetrievalOutcome, ExactRetrievalRequest,
};
use crate::digest::blake3_hash;
use crate::hybrid::{fuse_hybrid, same_bytes, HybridOutcome, HybridRequest};
use crate::hybrid_proof::{hybrid_outcome_model, HybridRetrievalProof};
use crate::lexical::{LexicalFieldContribution, LexicalMatch, LexicalOutcome, LexicalTermContribution};
use crate::lexical_proof::{
    field_contributions_model, lex_matches_model, lex_outcome_model, strings_equal, terms_model,
    LexicalRetrievalProof,
};
use crate::retrieval_proof::{
    anchor_domain, anchor_identity_bytes, exact_match_pairs, exact_outcome_model, exact_request_model, ExactProofModel, ExactRetrievalProof,
    RetrievalProofAnchor, RetrievalProofError, SnapshotInfo, MAX_RETRIEVAL_PROOF_BYTES,
};
use crate::shared::{Q15Vector, VectorSpaceDefinition, VectorSpaceName};
use crate::value::{compare_paths, compare_strings, lemma_bytes_order_antisym, lemma_path_order_antisym, Comparison};

use crate::query::{deadline_after, extends, lemma_extends_trans, timed_out_since};

verus! {

/// Bounds for one complete offline verification.
#[derive(Clone, Copy, Debug, PartialEq, Eq)]
pub struct RetrievalVerificationLimits {
    /// Maximum proof file bytes accepted before allocation.
    pub proof_bytes: u64,
    /// Maximum candidates accepted by exact replay.
    pub max_candidates: u64,
    /// Maximum aggregate key and vector bytes accepted by exact replay.
    pub max_candidate_bytes: u64,
    /// Maximum result count accepted by exact replay.
    pub max_returned: usize,
    /// Maximum durable documents accepted by lexical replay.
    pub max_documents: u64,
    /// Maximum normalized tokens accepted by lexical replay.
    pub max_tokens: u64,
    /// Maximum matching documents retained by lexical replay.
    pub max_lexical_candidates: u64,
    /// Maximum lexical result count accepted by replay.
    pub max_lexical_returned: usize,
    /// Maximum hybrid result count accepted by replay.
    pub max_hybrid_returned: usize,
    /// End-to-end cooperative verification deadline, in nanoseconds.
    pub timeout_nanos: u128,
}

impl Default for RetrievalVerificationLimits {
    fn default() -> (r: Self)
        ensures
            r.proof_bytes == MAX_RETRIEVAL_PROOF_BYTES,
            r.max_candidates == 100_000,
            r.max_candidate_bytes == 268_435_456,
            r.max_returned == 1_000,
            r.max_documents == 1_000_000,
            r.max_tokens == 10_000_000,
            r.max_lexical_candidates == 100_000,
            r.max_lexical_returned == 1_000,
            r.max_hybrid_returned == 1_000,
            r.timeout_nanos == 60_000_000_000,
    {
        RetrievalVerificationLimits {
            proof_bytes: MAX_RETRIEVAL_PROOF_BYTES,
            max_candidates: 100_000,
            max_candidate_bytes: 268_435_456,
            max_returned: 1_000,
            max_documents: 1_000_000,
            max_tokens: 10_000_000,
            max_lexical_candidates: 100_000,
            max_lexical_returned: 1_000,
            max_hybrid_returned: 1_000,
            timeout_nanos: 60_000_000_000,
        }
    }
}

/// One durable vector of a snapshot witness.
#[derive(Clone, Debug, PartialEq, Eq)]
pub struct SnapshotVector {
    /// The vector space it belongs to.
    pub space: VectorSpaceName,
    /// Binary object key.
    pub key: Vec<u8>,
    /// The canonical vector.
    pub vector: Q15Vector,
}

/// What exact replay reads of a loaded snapshot witness.
#[derive(Clone, Debug)]
pub struct SnapshotWitness {
    /// Snapshot identity and format.
    pub info: SnapshotInfo,
    /// Durable vector-space definitions.
    pub vector_spaces: Vec<VectorSpaceDefinition>,
    /// Durable vectors of every space.
    pub vectors: Vec<SnapshotVector>,
}

/// Successful offline exact-retrieval verification evidence.
#[derive(Clone, Debug, PartialEq, Eq)]
pub struct ExactRetrievalVerificationReport {
    /// Trusted anchor accepted by the verifier.
    pub anchor: RetrievalProofAnchor,
    /// Caller-pinnable anchor digest that matched expectation.
    pub anchor_digest: [u8; 32],
    /// Digest of the verified canonical proof file.
    pub proof_digest: [u8; 32],
    /// Complete reexecuted and verified outcome.
    pub outcome: ExactRetrievalOutcome,
}

/// Successful offline lexical-retrieval verification evidence.
#[derive(Clone, Debug, PartialEq, Eq)]
pub struct LexicalRetrievalVerificationReport {
    /// Trusted anchor accepted by the verifier.
    pub anchor: RetrievalProofAnchor,
    /// Caller-pinnable anchor digest that matched expectation.
    pub anchor_digest: [u8; 32],
    /// Digest of the verified canonical proof file.
    pub proof_digest: [u8; 32],
    /// Complete reexecuted lexical outcome.
    pub outcome: LexicalOutcome,
}

/// Successful offline hybrid-retrieval verification evidence.
#[derive(Clone, Debug, PartialEq, Eq)]
pub struct HybridRetrievalVerificationReport {
    /// Trusted anchor accepted by the verifier.
    pub anchor: RetrievalProofAnchor,
    /// Caller-pinnable anchor digest that matched expectation.
    pub anchor_digest: [u8; 32],
    /// Digest of the verified canonical proof file.
    pub proof_digest: [u8; 32],
    /// Complete reexecuted hybrid outcome.
    pub outcome: HybridOutcome,
}

// ---------------------------------------------------------------------------
// Reading proof files.

/// Checks the length that a proof file declares before it is read: it must
/// not exceed `maximum` and must fit a `usize`, which is returned.
pub fn check_declared_length(declared: u64, maximum: u64) -> (r: Result<usize, RetrievalProofError>)
    ensures
        declared > maximum ==> r == Err::<usize, RetrievalProofError>(
            RetrievalProofError::ProofLimitExceeded { actual: declared, maximum },
        ),
        declared <= maximum && declared > usize::MAX ==> r == Err::<usize, RetrievalProofError>(
            RetrievalProofError::LengthOverflow,
        ),
        declared <= maximum && declared <= usize::MAX ==> r == Ok::<usize, RetrievalProofError>(declared as usize),
{
    if declared > maximum {
        return Err(RetrievalProofError::ProofLimitExceeded { actual: declared, maximum });
    }
    if declared > usize::MAX as u64 {
        return Err(RetrievalProofError::LengthOverflow);
    }
    Ok(declared as usize)
}

/// Checks the bytes actually read against the limit and the declared
/// length.
pub fn check_read_length(read: usize, declared: u64, maximum: u64) -> (r: Result<(), RetrievalProofError>)
    ensures
        read > maximum ==> r == Err::<(), RetrievalProofError>(
            RetrievalProofError::ProofLimitExceeded { actual: read as u64, maximum },
        ),
        read <= maximum && read != declared ==> r == Err::<(), RetrievalProofError>(
            RetrievalProofError::Invalid { reason: "proof changed while being read" },
        ),
        read <= maximum && read == declared ==> r is Ok,
{
    let actual = read as u64;
    if actual > maximum {
        return Err(RetrievalProofError::ProofLimitExceeded { actual, maximum });
    }
    if actual != declared {
        return Err(RetrievalProofError::Invalid { reason: "proof changed while being read" });
    }
    Ok(())
}

// ---------------------------------------------------------------------------
// Anchor and witness.

/// The anchor digest that a caller pins.
pub open spec fn anchor_digest_of(a: RetrievalProofAnchor) -> [u8; 32] {
    blake3_hash(anchor_domain() + anchor_identity_bytes(a))
}

/// The anchor that a snapshot's identity gives.
pub open spec fn snapshot_anchor(info: SnapshotInfo) -> RetrievalProofAnchor {
    RetrievalProofAnchor {
        checkpoint_sequence: info.checkpoint_sequence,
        checkpoint_digest: info.checkpoint_digest,
        snapshot_digest: info.snapshot_digest,
    }
}

fn same_digest(a: &[u8; 32], b: &[u8; 32]) -> (r: bool)
    ensures
        r == (*a == *b),
{
    let r = same_bytes(a.as_slice(), b.as_slice());
    proof {
        if r {
            assert(*a =~= *b);
        }
    }
    r
}

/// Checks the proof's anchor digest against the caller-pinned one and
/// returns it.
pub fn check_anchor_digest(anchor: &RetrievalProofAnchor, expected: [u8; 32]) -> (r: Result<
    [u8; 32],
    RetrievalProofError,
>)
    ensures
        anchor_digest_of(*anchor) == expected ==> r == Ok::<[u8; 32], RetrievalProofError>(expected),
        anchor_digest_of(*anchor) != expected ==> r == Err::<[u8; 32], RetrievalProofError>(
            RetrievalProofError::AnchorMismatch,
        ),
{
    let digest = anchor.digest();
    if !same_digest(&digest, &expected) {
        return Err(RetrievalProofError::AnchorMismatch);
    }
    Ok(digest)
}

/// Binds a loaded snapshot witness to the proof's anchor: a format-2
/// snapshot with exactly the anchored identity.
pub fn check_witness(anchor: &RetrievalProofAnchor, info: &SnapshotInfo) -> (r: Result<(), RetrievalProofError>)
    ensures
        info.disk_format_version != 2 ==> r == Err::<(), RetrievalProofError>(
            RetrievalProofError::SnapshotFormatMismatch,
        ),
        info.disk_format_version == 2 && snapshot_anchor(*info) != *anchor ==> r == Err::<(), RetrievalProofError>(
            RetrievalProofError::SnapshotAnchorMismatch,
        ),
        info.disk_format_version == 2 && snapshot_anchor(*info) == *anchor ==> r is Ok,
{
    if info.disk_format_version != 2 {
        return Err(RetrievalProofError::SnapshotFormatMismatch);
    }
    let same_digests = match (&info.checkpoint_digest, &anchor.checkpoint_digest) {
        (None, None) => true,
        (Some(x), Some(y)) => same_digest(x, y),
        _ => false,
    };
    if info.checkpoint_sequence != anchor.checkpoint_sequence || !same_digests || !same_digest(
        &info.snapshot_digest,
        &anchor.snapshot_digest,
    ) {
        return Err(RetrievalProofError::SnapshotAnchorMismatch);
    }
    Ok(())
}

/// The time from `started` to the reading `now`; zero for an earlier
/// reading.
pub open spec fn elapsed_from(started: u128, now: u128) -> int {
    if now >= started {
        now - started
    } else {
        0
    }
}

/// A reading taken after `before` was at least `timeout` past `started`.
pub open spec fn elapsed_reached(before: Seq<u128>, after: Seq<u128>, started: u128, timeout: u128) -> bool {
    exists|i: int| before.len() <= i < after.len() && elapsed_from(started, #[trigger] after[i]) >= timeout
}

/// After the readings of `before`, some reading reached another taken
/// before it plus `t`, for a `t` with `0 < t <= timeout`.
pub open spec fn timed_out_within(before: Seq<u128>, after: Seq<u128>, timeout: u128) -> bool {
    exists|k: int, i: int, t: u128|
        #![trigger after[i], deadline_after(after[k], t)]
        before.len() <= k < i < after.len() && 0 < t <= timeout && after[i] >= deadline_after(after[k], t)
}

proof fn lemma_elapsed_widen(a: Seq<u128>, b: Seq<u128>, c: Seq<u128>, started: u128, timeout: u128)
    requires
        extends(a, b),
        extends(b, c),
        elapsed_reached(b, c, started, timeout),
    ensures
        elapsed_reached(a, c, started, timeout),
{
    let i = choose|i: int| b.len() <= i < c.len() && elapsed_from(started, c[i]) >= timeout;
}

proof fn lemma_elapsed_extend(a: Seq<u128>, b: Seq<u128>, c: Seq<u128>, started: u128, timeout: u128)
    requires
        extends(a, b),
        extends(b, c),
        elapsed_reached(a, b, started, timeout),
    ensures
        elapsed_reached(a, c, started, timeout),
{
    let i = choose|i: int| a.len() <= i < b.len() && elapsed_from(started, b[i]) >= timeout;
    assert(c.subrange(0, b.len() as int)[i] == c[i]);
}

proof fn lemma_within_of_since(b: Seq<u128>, c: Seq<u128>, t: u128, timeout: u128)
    requires
        timed_out_since(b, c, t),
        0 < t <= timeout,
    ensures
        timed_out_within(b, c, timeout),
{
    let k = b.len() as int;
    let i = choose|i: int| b.len() < i < c.len() && #[trigger] c[i] >= deadline_after(c[b.len() as int], t);
    assert(c[i] >= deadline_after(c[k], t));
}

proof fn lemma_within_widen(a: Seq<u128>, b: Seq<u128>, c: Seq<u128>, timeout: u128)
    requires
        extends(a, b),
        extends(b, c),
        timed_out_within(b, c, timeout),
    ensures
        timed_out_within(a, c, timeout),
{
    let (k, i, t) = choose|k: int, i: int, t: u128|
        #![trigger c[i], deadline_after(c[k], t)]
        b.len() <= k < i < c.len() && 0 < t <= timeout && c[i] >= deadline_after(c[k], t);
}

proof fn lemma_within_extend(a: Seq<u128>, b: Seq<u128>, c: Seq<u128>, timeout: u128)
    requires
        extends(a, b),
        extends(b, c),
        timed_out_within(a, b, timeout),
    ensures
        timed_out_within(a, c, timeout),
{
    let (k, i, t) = choose|k: int, i: int, t: u128|
        #![trigger b[i], deadline_after(b[k], t)]
        a.len() <= k < i < b.len() && 0 < t <= timeout && b[i] >= deadline_after(b[k], t);
    assert(c.subrange(0, b.len() as int)[i] == c[i]);
    assert(c.subrange(0, b.len() as int)[k] == c[k]);
}

/// Whether the verification deadline has passed `started` on `clock`.
fn check_deadline<C: ExactRetrievalClock>(clock: &mut C, started: u128, timeout_nanos: u128) -> (r: Result<
    (),
    RetrievalProofError,
>)
    ensures
        final(clock).retrieval_readings().len() == old(clock).retrieval_readings().len() + 1,
        extends(old(clock).retrieval_readings(), final(clock).retrieval_readings()),
        r is Err ==> r == Err::<(), RetrievalProofError>(RetrievalProofError::TimedOut),
        r is Err <==> elapsed_from(started, final(clock).retrieval_readings().last()) >= timeout_nanos,
        timeout_nanos == 0 ==> r == Err::<(), RetrievalProofError>(RetrievalProofError::TimedOut),
{
    let ghost before = clock.retrieval_readings();
    let now = clock.now();
    proof {
        assert(clock.retrieval_readings().subrange(0, before.len() as int) =~= before);
    }
    let elapsed = if now >= started {
        now - started
    } else {
        0
    };
    if elapsed >= timeout_nanos {
        Err(RetrievalProofError::TimedOut)
    } else {
        Ok(())
    }
}

/// The time left before the deadline, which must be positive.
fn remaining_time<C: ExactRetrievalClock>(clock: &mut C, started: u128, timeout_nanos: u128) -> (r: Result<
    u128,
    RetrievalProofError,
>)
    ensures
        final(clock).retrieval_readings().len() == old(clock).retrieval_readings().len() + 1,
        extends(old(clock).retrieval_readings(), final(clock).retrieval_readings()),
        r matches Ok(left) ==> 0 < left <= timeout_nanos && left == timeout_nanos - elapsed_from(
            started,
            final(clock).retrieval_readings().last(),
        ),
        r is Err ==> r == Err::<u128, RetrievalProofError>(RetrievalProofError::TimedOut),
        r is Err <==> elapsed_from(started, final(clock).retrieval_readings().last()) >= timeout_nanos,
{
    let ghost before = clock.retrieval_readings();
    let now = clock.now();
    proof {
        assert(clock.retrieval_readings().subrange(0, before.len() as int) =~= before);
    }
    let elapsed = if now >= started {
        now - started
    } else {
        0
    };
    if elapsed >= timeout_nanos {
        return Err(RetrievalProofError::TimedOut);
    }
    Ok(timeout_nanos - elapsed)
}

// ---------------------------------------------------------------------------
// Exact replay.

/// The (key, vector) pairs of the witness vectors in `space`, in witness
/// order.
pub open spec fn space_candidates(vs: Seq<SnapshotVector>, space: Seq<u8>) -> Seq<(Seq<u8>, Seq<i16>)>
    decreases vs.len(),
{
    if vs.len() == 0 {
        Seq::empty()
    } else if vs.last().space@ == space {
        space_candidates(vs.drop_last(), space).push((vs.last().key@, vs.last().vector@))
    } else {
        space_candidates(vs.drop_last(), space)
    }
}

pub open spec fn records_model(cs: Seq<DurableVectorRecord>) -> Seq<(Seq<u8>, Seq<i16>)> {
    Seq::new(cs.len(), |i: int| (cs[i].key@, cs[i].vector@))
}

/// The position of the first definition named `name`.
pub open spec fn first_space(defs: Seq<VectorSpaceDefinition>, name: Seq<u8>, i: int) -> bool {
    0 <= i < defs.len() && defs[i].name@ == name && forall|j: int| 0 <= j < i ==> (#[trigger] defs[j]).name@ != name
}

fn find_space(defs: &Vec<VectorSpaceDefinition>, name: &VectorSpaceName) -> (r: Option<usize>)
    ensures
        match r {
            Some(i) => first_space(defs@, name@, i as int),
            None => forall|j: int| 0 <= j < defs@.len() ==> (#[trigger] defs@[j]).name@ != name@,
        },
{
    let mut i: usize = 0;
    while i < defs.len()
        invariant
            i <= defs@.len(),
            forall|j: int| 0 <= j < i ==> (#[trigger] defs@[j]).name@ != name@,
        decreases defs@.len() - i,
    {
        if same_bytes(defs[i].name.as_str().as_bytes(), name.as_str().as_bytes()) {
            return Some(i);
        }
        i = i + 1;
    }
    None
}

fn select_candidates(vectors: &Vec<SnapshotVector>, space: &VectorSpaceName) -> (r: Vec<DurableVectorRecord>)
    ensures
        records_model(r@) == space_candidates(vectors@, space@),
{
    let mut out: Vec<DurableVectorRecord> = Vec::new();
    let mut i: usize = 0;
    proof {
        assert(vectors@.subrange(0, 0) =~= Seq::<SnapshotVector>::empty());
        assert(records_model(out@) =~= Seq::<(Seq<u8>, Seq<i16>)>::empty());
    }
    while i < vectors.len()
        invariant
            i <= vectors@.len(),
            records_model(out@) == space_candidates(vectors@.subrange(0, i as int), space@),
        decreases vectors@.len() - i,
    {
        let v = &vectors[i];
        let ghost prefix = vectors@.subrange(0, i + 1);
        proof {
            assert(prefix.drop_last() =~= vectors@.subrange(0, i as int));
            assert(prefix.last() == vectors@[i as int]);
        }
        if same_bytes(v.space.as_str().as_bytes(), space.as_str().as_bytes()) {
            let key = crate::document::copy_range(v.key.as_slice(), 0, v.key.len());
            let vector = v.vector.clone();
            proof {
                assert(key@ =~= v.key@);
            }
            let ghost before = records_model(out@);
            out.push(DurableVectorRecord { key, vector });
            proof {
                assert(records_model(out@) =~= before.push((v.key@, v.vector@)));
            }
        }
        i = i + 1;
    }
    proof {
        assert(vectors@.subrange(0, vectors@.len() as int) =~= vectors@);
    }
    out
}

/// The exact-retrieval limits of a verification, with `timeout_nanos` left.
pub open spec fn replay_limits(limits: RetrievalVerificationLimits, timeout_nanos: u128) -> ExactRetrievalLimits {
    ExactRetrievalLimits {
        max_candidates: limits.max_candidates,
        max_candidate_bytes: limits.max_candidate_bytes,
        max_returned: limits.max_returned,
        timeout_nanos,
    }
}

/// `r` is a result of replaying exact retrieval against the witness: an
/// unknown space or a query of the wrong dimension fails, and otherwise the
/// result is a timeout or that of exact retrieval over the witness vectors
/// of the space, given some positive time within the timeout.
pub open spec fn replays_to(
    witness: SnapshotWitness,
    request: ExactRetrievalRequest,
    limits: RetrievalVerificationLimits,
    r: Result<ExactRetrievalOutcome, RetrievalProofError>,
) -> bool {
    &&& (forall|j: int| 0 <= j < witness.vector_spaces@.len() ==> (#[trigger] witness.vector_spaces@[j]).name@
        != request.vector_space@) ==> r == Err::<ExactRetrievalOutcome, RetrievalProofError>(
        RetrievalProofError::Invalid { reason: "proof references an unknown vector space" },
    )
    &&& forall|i: int|
        first_space(witness.vector_spaces@, request.vector_space@, i) ==> {
            let def = #[trigger] witness.vector_spaces@[i];
            if request.query@.len() != def.dimension {
                r == Err::<ExactRetrievalOutcome, RetrievalProofError>(
                    RetrievalProofError::Vector(crate::shared::VectorValueError::DimensionMismatch),
                )
            } else {
                r == Err::<ExactRetrievalOutcome, RetrievalProofError>(RetrievalProofError::TimedOut) || exists|
                    cs: Seq<DurableVectorRecord>,
                    t: u128,
                    inner: Result<ExactRetrievalOutcome, crate::canonical::ExactRetrievalError>,
                |
                    records_model(cs) == space_candidates(witness.vectors@, request.vector_space@) && 0 < t
                        <= limits.timeout_nanos && #[trigger] retrieves_to(cs, request, replay_limits(limits, t), inner)
                        && r == match inner {
                        Ok(o) => Ok::<ExactRetrievalOutcome, RetrievalProofError>(o),
                        Err(e) => Err(RetrievalProofError::Retrieval(e)),
                    }
            }
        }
}

/// Replays exact retrieval against the witness: the request's space must be
/// defined, its query must have the space's dimension, and the candidates
/// are the witness vectors of that space in witness order; the replay gets
/// the time left before the deadline.
pub fn replay_exact<C: ExactRetrievalClock>(
    witness: &SnapshotWitness,
    request: &ExactRetrievalRequest,
    limits: &RetrievalVerificationLimits,
    clock: &mut C,
    started: u128,
) -> (r: Result<ExactRetrievalOutcome, RetrievalProofError>)
    ensures
        replays_to(*witness, *request, *limits, r),
        extends(old(clock).retrieval_readings(), final(clock).retrieval_readings()),
        r matches Err(RetrievalProofError::TimedOut) ==> elapsed_reached(
            old(clock).retrieval_readings(),
            final(clock).retrieval_readings(),
            started,
            limits.timeout_nanos,
        ),
        r matches Err(RetrievalProofError::Retrieval(crate::canonical::ExactRetrievalError::TimedOut))
            ==> timed_out_within(old(clock).retrieval_readings(), final(clock).retrieval_readings(), limits.timeout_nanos),
{
    let ghost start = clock.retrieval_readings();
    proof {
        assert(start.subrange(0, start.len() as int) =~= start);
    }
    let index = match find_space(&witness.vector_spaces, &request.vector_space) {
        Some(i) => i,
        None => {
            return Err(RetrievalProofError::Invalid { reason: "proof references an unknown vector space" });
        },
    };
    proof {
        assert forall|i: int| first_space(witness.vector_spaces@, request.vector_space@, i) implies i == index by {
            if i < index {
                assert(witness.vector_spaces@[i].name@ != request.vector_space@);
            } else if i > index {
                assert(witness.vector_spaces@[index as int].name@ != request.vector_space@);
            }
        }
    }
    match witness.vector_spaces[index].validate_vector(&request.query) {
        Ok(()) => {},
        Err(e) => {
            return Err(RetrievalProofError::Vector(e));
        },
    }
    let candidates = select_candidates(&witness.vectors, &request.vector_space);
    let left = remaining_time(clock, started, limits.timeout_nanos);
    let ghost after_left = clock.retrieval_readings();
    proof {
        if left is Err {
            assert(elapsed_from(started, after_left[after_left.len() - 1]) >= limits.timeout_nanos);
            assert(elapsed_reached(start, after_left, started, limits.timeout_nanos));
        }
    }
    let remaining = match left {
        Ok(left) => left,
        Err(e) => {
            return Err(e);
        },
    };
    let execution_limits = ExactRetrievalLimits {
        max_candidates: limits.max_candidates,
        max_candidate_bytes: limits.max_candidate_bytes,
        max_returned: limits.max_returned,
        timeout_nanos: remaining,
    };
    let inner = retrieve_exact_with_clock(candidates.as_slice(), request, &execution_limits, clock);
    let ghost inner_result = inner;
    let r = match inner {
        Ok(o) => Ok(o),
        Err(e) => Err(RetrievalProofError::Retrieval(e)),
    };
    proof {
        let cs = candidates@;
        assert(execution_limits == replay_limits(*limits, remaining));
        assert(retrieves_to(cs, *request, replay_limits(*limits, remaining), inner));
        lemma_extends_trans(start, after_left, clock.retrieval_readings());
        if inner_result matches Err(crate::canonical::ExactRetrievalError::TimedOut) {
            lemma_within_of_since(after_left, clock.retrieval_readings(), remaining, limits.timeout_nanos);
            lemma_within_widen(start, after_left, clock.retrieval_readings(), limits.timeout_nanos);
        }
    }
    r
}

/// Whether two exact outcomes are equal.
pub fn same_exact_outcome(a: &ExactRetrievalOutcome, b: &ExactRetrievalOutcome) -> (r: bool)
    ensures
        r == (exact_outcome_model(*a) == exact_outcome_model(*b)),
{
    match (a, b) {
        (
            ExactRetrievalOutcome::Matches { matches: x, scanned_candidates: sx },
            ExactRetrievalOutcome::Matches { matches: y, scanned_candidates: sy },
        ) => {
            if *sx != *sy || x.len() != y.len() {
                proof {
                    if x@.len() != y@.len() {
                        assert(exact_match_pairs(x@).len() != exact_match_pairs(y@).len());
                    }
                }
                return false;
            }
            same_match_pairs(x, y)
        },
        (ExactRetrievalOutcome::Abstained(x), ExactRetrievalOutcome::Abstained(y)) => *x == *y,
        _ => false,
    }
}

fn same_match_pairs(x: &Vec<crate::canonical::ExactRetrievalMatch>, y: &Vec<crate::canonical::ExactRetrievalMatch>) -> (r: bool)
    requires
        x@.len() == y@.len(),
    ensures
        r == (exact_match_pairs(x@) == exact_match_pairs(y@)),
{
    let mut i: usize = 0;
    while i < x.len()
        invariant
            x@.len() == y@.len(),
            i <= x@.len(),
            forall|k: int| 0 <= k < i ==> (#[trigger] exact_match_pairs(x@)[k]) == exact_match_pairs(y@)[k],
        decreases x@.len() - i,
    {
        if !same_bytes(x[i].key.as_slice(), y[i].key.as_slice()) || x[i].score_nanos != y[i].score_nanos {
            proof {
                assert(exact_match_pairs(x@)[i as int] != exact_match_pairs(y@)[i as int]);
            }
            return false;
        }
        i = i + 1;
    }
    proof {
        assert(exact_match_pairs(x@) =~= exact_match_pairs(y@));
    }
    true
}

/// `r` is the verification result once the witness is bound to the anchor
/// and the replay gave `replayed`: a failed replay fails alike, an outcome
/// other than the proven one is a mismatch, and the proven outcome gives the
/// report of the anchor, its digest, the proof digest and that outcome.
pub open spec fn exact_verification_result(
    proof: ExactProofModel,
    anchor_digest: [u8; 32],
    replayed: Result<ExactRetrievalOutcome, RetrievalProofError>,
    r: Result<ExactRetrievalVerificationReport, RetrievalProofError>,
) -> bool {
    match replayed {
        Err(e) => r == Err::<ExactRetrievalVerificationReport, RetrievalProofError>(e),
        Ok(o) => if exact_outcome_model(o) != proof.outcome {
            r == Err::<ExactRetrievalVerificationReport, RetrievalProofError>(RetrievalProofError::ReexecutionMismatch)
        } else {
            r matches Ok(report) && report.anchor == proof.anchor && report.anchor_digest == anchor_digest
                && report.proof_digest@ == proof.proof_digest && report.outcome == o
        },
    }
}

/// Verifies an exact proof against a loaded witness once its anchor digest
/// matched: the witness is bound to the anchor, exact retrieval is replayed
/// within the time left, and the replay must reproduce the proven outcome.
pub fn verify_exact_witness<C: ExactRetrievalClock>(
    proof: &ExactRetrievalProof,
    anchor_digest: [u8; 32],
    witness: &SnapshotWitness,
    limits: &RetrievalVerificationLimits,
    clock: &mut C,
    started: u128,
) -> (r: Result<ExactRetrievalVerificationReport, RetrievalProofError>)
    ensures
        r matches Ok(report) ==> {
            &&& report.anchor == proof@.anchor
            &&& report.anchor_digest == anchor_digest
            &&& report.proof_digest@ == proof@.proof_digest
            &&& exact_outcome_model(report.outcome) == proof@.outcome
            &&& witness.info.disk_format_version == 2
            &&& snapshot_anchor(witness.info) == proof@.anchor
        },
        witness.info.disk_format_version != 2 ==> r is Err,
        snapshot_anchor(witness.info) != proof@.anchor ==> r is Err,
        r == Err::<ExactRetrievalVerificationReport, RetrievalProofError>(RetrievalProofError::TimedOut) || {
            if witness.info.disk_format_version != 2 {
                r == Err::<ExactRetrievalVerificationReport, RetrievalProofError>(
                    RetrievalProofError::SnapshotFormatMismatch,
                )
            } else if snapshot_anchor(witness.info) != proof@.anchor {
                r == Err::<ExactRetrievalVerificationReport, RetrievalProofError>(
                    RetrievalProofError::SnapshotAnchorMismatch,
                )
            } else {
                exists|request: ExactRetrievalRequest, replayed: Result<ExactRetrievalOutcome, RetrievalProofError>|
                    exact_request_model(request) == proof@.request && #[trigger] replays_to(
                        *witness,
                        request,
                        *limits,
                        replayed,
                    ) && exact_verification_result(proof@, anchor_digest, replayed, r)
            }
        },
        extends(old(clock).retrieval_readings(), final(clock).retrieval_readings()),
        r matches Err(RetrievalProofError::TimedOut) ==> elapsed_reached(
            old(clock).retrieval_readings(),
            final(clock).retrieval_readings(),
            started,
            limits.timeout_nanos,
        ),
        r matches Err(RetrievalProofError::Retrieval(crate::canonical::ExactRetrievalError::TimedOut))
            ==> timed_out_within(old(clock).retrieval_readings(), final(clock).retrieval_readings(), limits.timeout_nanos),
{
    let ghost start = clock.retrieval_readings();
    let first_check = check_deadline(clock, started, limits.timeout_nanos);
    let ghost after_first = clock.retrieval_readings();
    proof {
        if first_check is Err {
            assert(elapsed_from(started, after_first[after_first.len() - 1]) >= limits.timeout_nanos);
        }
    }
    match first_check {
        Ok(()) => {},
        Err(e) => {
            return Err(e);
        },
    }
    match check_witness(proof.anchor(), &witness.info) {
        Ok(()) => {},
        Err(e) => {
            return Err(e);
        },
    }
    let request = proof.request();
    let replayed = replay_exact(witness, request, limits, clock, started);
    proof {
        assert(replays_to(*witness, *request, *limits, replayed));
        lemma_extends_trans(start, after_first, clock.retrieval_readings());
        if replayed matches Err(RetrievalProofError::TimedOut) {
            lemma_elapsed_widen(start, after_first, clock.retrieval_readings(), started, limits.timeout_nanos);
        }
        if replayed matches Err(RetrievalProofError::Retrieval(crate::canonical::ExactRetrievalError::TimedOut)) {
            lemma_within_widen(start, after_first, clock.retrieval_readings(), limits.timeout_nanos);
        }
    }
    let actual = match replayed {
        Ok(o) => o,
        Err(e) => {
            proof {
                assert(exact_verification_result(proof@, anchor_digest, replayed, Err(e)));
            }
            return Err(e);
        },
    };
    if !same_exact_outcome(&actual, proof.outcome()) {
        proof {
            assert(exact_verification_result(
                proof@,
                anchor_digest,
                replayed,
                Err(RetrievalProofError::ReexecutionMismatch),
            ));
        }
        return Err(RetrievalProofError::ReexecutionMismatch);
    }
    let ghost before_last = clock.retrieval_readings();
    let last_check = check_deadline(clock, started, limits.timeout_nanos);
    proof {
        lemma_extends_trans(start, before_last, clock.retrieval_readings());
        if last_check is Err {
            let fin = clock.retrieval_readings();
            assert(elapsed_from(started, fin[fin.len() - 1]) >= limits.timeout_nanos);
            assert(elapsed_reached(before_last, fin, started, limits.timeout_nanos));
            lemma_elapsed_widen(start, before_last, fin, started, limits.timeout_nanos);
        }
    }
    match last_check {
        Ok(()) => {},
        Err(e) => {
            return Err(e);
        },
    }
    let report = ExactRetrievalVerificationReport {
        anchor: *proof.anchor(),
        anchor_digest,
        proof_digest: proof.proof_digest(),
        outcome: actual,
    };
    proof {
        assert(exact_verification_result(proof@, anchor_digest, replayed, Ok(report)));
    }
    Ok(report)
}

/// Verifies a decoded exact proof against the caller-pinned anchor digest
/// and a loaded witness: the anchor must hash to the expected digest, then
/// the witness is bound to the anchor and retrieval is replayed.
pub fn verify_exact_proof<C: ExactRetrievalClock>(
    proof: &ExactRetrievalProof,
    expected_anchor_digest: [u8; 32],
    witness: &SnapshotWitness,
    limits: &RetrievalVerificationLimits,
    clock: &mut C,
    started: u128,
) -> (r: Result<ExactRetrievalVerificationReport, RetrievalProofError>)
    ensures
        anchor_digest_of(proof@.anchor) != expected_anchor_digest ==> r == Err::<
            ExactRetrievalVerificationReport,
            RetrievalProofError,
        >(RetrievalProofError::AnchorMismatch),
        r is Ok ==> anchor_digest_of(proof@.anchor) == expected_anchor_digest,
        anchor_digest_of(proof@.anchor) == expected_anchor_digest ==> {
            &&& r matches Ok(report) ==> {
                &&& report.anchor == proof@.anchor
                &&& report.anchor_digest == expected_anchor_digest
                &&& report.proof_digest@ == proof@.proof_digest
                &&& exact_outcome_model(report.outcome) == proof@.outcome
                &&& witness.info.disk_format_version == 2
                &&& snapshot_anchor(witness.info) == proof@.anchor
            }
            &&& r == Err::<ExactRetrievalVerificationReport, RetrievalProofError>(RetrievalProofError::TimedOut) || {
                if witness.info.disk_format_version != 2 {
                    r == Err::<ExactRetrievalVerificationReport, RetrievalProofError>(
                        RetrievalProofError::SnapshotFormatMismatch,
                    )
                } else if snapshot_anchor(witness.info) != proof@.anchor {
                    r == Err::<ExactRetrievalVerificationReport, RetrievalProofError>(
                        RetrievalProofError::SnapshotAnchorMismatch,
                    )
                } else {
                    exists|request: ExactRetrievalRequest, replayed: Result<ExactRetrievalOutcome, RetrievalProofError>|
                        exact_request_model(request) == proof@.request && #[trigger] replays_to(
                            *witness,
                            request,
                            *limits,
                            replayed,
                        ) && exact_verification_result(proof@, expected_anchor_digest, replayed, r)
                }
            }
        },
        extends(old(clock).retrieval_readings(), final(clock).retrieval_readings()),
        r matches Err(RetrievalProofError::TimedOut) ==> elapsed_reached(
            old(clock).retrieval_readings(),
            final(clock).retrieval_readings(),
            started,
            limits.timeout_nanos,
        ),
        r matches Err(RetrievalProofError::Retrieval(crate::canonical::ExactRetrievalError::TimedOut))
            ==> timed_out_within(old(clock).retrieval_readings(), final(clock).retrieval_readings(), limits.timeout_nanos),
{
    let ghost start = clock.retrieval_readings();
    proof {
        assert(start.subrange(0, start.len() as int) =~= start);
    }
    let digest = match check_anchor_digest(proof.anchor(), expected_anchor_digest) {
        Ok(d) => d,
        Err(e) => {
            return Err(e);
        },
    };
    verify_exact_witness(proof, digest, witness, limits, clock, started)
}

// ---------------------------------------------------------------------------
// Lexical and hybrid replay.

fn same_text(a: &String, b: &String) -> (r: bool)
    ensures
        r == (a@ == b@),
{
    let c = compare_strings(a.as_str(), b.as_str());
    proof {
        lemma_bytes_order_antisym(vstd::utf8::encode_utf8(a@), vstd::utf8::encode_utf8(b@));
        vstd::utf8::encode_utf8_decode_utf8(a@);
        vstd::utf8::encode_utf8_decode_utf8(b@);
    }
    match c {
        Comparison::Equal => true,
        _ => false,
    }
}

fn same_fields(x: &Vec<LexicalFieldContribution>, y: &Vec<LexicalFieldContribution>) -> (r: bool)
    ensures
        r == (field_contributions_model(x@) == field_contributions_model(y@)),
{
    if x.len() != y.len() {
        proof {
            assert(field_contributions_model(x@).len() != field_contributions_model(y@).len());
        }
        return false;
    }
    let mut i: usize = 0;
    while i < x.len()
        invariant
            x@.len() == y@.len(),
            i <= x@.len(),
            forall|k: int| 0 <= k < i ==> (#[trigger] field_contributions_model(x@)[k]) == field_contributions_model(y@)[k],
        decreases x@.len() - i,
    {
        let c = compare_paths(&x[i].path, &y[i].path);
        proof {
            lemma_path_order_antisym(x@[i as int].path@, y@[i as int].path@);
        }
        let same_path = match c {
            Comparison::Equal => true,
            _ => false,
        };
        if !same_path || x[i].term_frequency != y[i].term_frequency || x[i].field_length != y[i].field_length {
            proof {
                assert(field_contributions_model(x@)[i as int] != field_contributions_model(y@)[i as int]);
            }
            return false;
        }
        i = i + 1;
    }
    proof {
        assert(field_contributions_model(x@) =~= field_contributions_model(y@));
    }
    true
}

fn same_terms(x: &Vec<LexicalTermContribution>, y: &Vec<LexicalTermContribution>) -> (r: bool)
    ensures
        r == (terms_model(x@) == terms_model(y@)),
{
    if x.len() != y.len() {
        proof {
            assert(terms_model(x@).len() != terms_model(y@).len());
        }
        return false;
    }
    let mut i: usize = 0;
    while i < x.len()
        invariant
            x@.len() == y@.len(),
            i <= x@.len(),
            forall|k: int| 0 <= k < i ==> (#[trigger] terms_model(x@)[k]) == terms_model(y@)[k],
        decreases x@.len() - i,
    {
        let t = &x[i];
        let u = &y[i];
        if !same_text(&t.token, &u.token) || t.document_frequency != u.document_frequency || t.score_nanos
            != u.score_nanos || !same_fields(&t.fields, &u.fields) {
            proof {
                assert(terms_model(x@)[i as int] != terms_model(y@)[i as int]);
            }
            return false;
        }
        i = i + 1;
    }
    proof {
        assert(terms_model(x@) =~= terms_model(y@));
    }
    true
}

fn same_lex_matches(x: &Vec<LexicalMatch>, y: &Vec<LexicalMatch>) -> (r: bool)
    ensures
        r == (lex_matches_model(x@) == lex_matches_model(y@)),
{
    if x.len() != y.len() {
        proof {
            assert(lex_matches_model(x@).len() != lex_matches_model(y@).len());
        }
        return false;
    }
    let mut i: usize = 0;
    while i < x.len()
        invariant
            x@.len() == y@.len(),
            i <= x@.len(),
            forall|k: int| 0 <= k < i ==> (#[trigger] lex_matches_model(x@)[k]) == lex_matches_model(y@)[k],
        decreases x@.len() - i,
    {
        let m = &x[i];
        let n = &y[i];
        if !same_bytes(m.key.as_slice(), n.key.as_slice()) || m.score_nanos != n.score_nanos || !same_terms(
            &m.terms,
            &n.terms,
        ) {
            proof {
                assert(lex_matches_model(x@)[i as int] != lex_matches_model(y@)[i as int]);
            }
            return false;
        }
        i = i + 1;
    }
    proof {
        assert(lex_matches_model(x@) =~= lex_matches_model(y@));
    }
    true
}

/// Whether two lexical outcomes are equal.
pub fn same_lexical_outcome(a: &LexicalOutcome, b: &LexicalOutcome) -> (r: bool)
    ensures
        r == (lex_outcome_model(*a) == lex_outcome_model(*b)),
{
    match (a, b) {
        (
            LexicalOutcome::Matches { matches: x, scanned_documents: sx, matched_documents: mx, query_tokens: qx },
            LexicalOutcome::Matches { matches: y, scanned_documents: sy, matched_documents: my, query_tokens: qy },
        ) => *sx == *sy && *mx == *my && strings_equal(qx, qy) && same_lex_matches(x, y),
        (LexicalOutcome::Abstained(x), LexicalOutcome::Abstained(y)) => x.scanned_documents == y.scanned_documents
            && strings_equal(&x.query_tokens, &y.query_tokens),
        _ => false,
    }
}

/// Completes a lexical verification once retrieval was replayed on the
/// witness: the replay must reproduce the proven outcome.
pub fn check_lexical_replay(
    proof: &LexicalRetrievalProof,
    anchor_digest: [u8; 32],
    actual: LexicalOutcome,
) -> (r: Result<LexicalRetrievalVerificationReport, RetrievalProofError>)
    ensures
        lex_outcome_model(actual) != proof@.outcome ==> r == Err::<LexicalRetrievalVerificationReport, RetrievalProofError>(
            RetrievalProofError::ReexecutionMismatch,
        ),
        lex_outcome_model(actual) == proof@.outcome ==> (r matches Ok(report) && report.anchor == proof@.anchor
            && report.anchor_digest == anchor_digest && report.proof_digest@ == proof@.proof_digest
            && report.outcome == actual),
{
    if !same_lexical_outcome(&actual, proof.outcome()) {
        return Err(RetrievalProofError::ReexecutionMismatch);
    }
    Ok(LexicalRetrievalVerificationReport {
        anchor: *proof.anchor(),
        anchor_digest,
        proof_digest: proof.proof_digest(),
        outcome: actual,
    })
}

/// Completes a hybrid verification once the lexical branch was replayed on
/// the witness: the exact branch is replayed here, both must reproduce the
/// proven branches, the fusion limit must respect the verifier's policy, and
/// fusing the replayed branches must reproduce the proven outcome.
pub fn check_hybrid_replay<C: ExactRetrievalClock>(
    proof: &HybridRetrievalProof,
    anchor_digest: [u8; 32],
    witness: &SnapshotWitness,
    lexical: LexicalOutcome,
    limits: &RetrievalVerificationLimits,
    clock: &mut C,
    started: u128,
) -> (r: Result<HybridRetrievalVerificationReport, RetrievalProofError>)
    ensures
        lex_outcome_model(lexical) != proof@.lexical_outcome ==> r == Err::<
            HybridRetrievalVerificationReport,
            RetrievalProofError,
        >(RetrievalProofError::ReexecutionMismatch),
        r matches Ok(report) ==> {
            &&& report.anchor == proof@.anchor
            &&& report.anchor_digest == anchor_digest
            &&& report.proof_digest@ == proof@.proof_digest
            &&& hybrid_outcome_model(report.outcome) == proof@.outcome
            &&& proof@.fusion_request.limit <= limits.max_hybrid_returned
        },
        extends(old(clock).retrieval_readings(), final(clock).retrieval_readings()),
        r matches Err(RetrievalProofError::TimedOut) ==> elapsed_reached(
            old(clock).retrieval_readings(),
            final(clock).retrieval_readings(),
            started,
            limits.timeout_nanos,
        ),
        r matches Err(RetrievalProofError::Retrieval(crate::canonical::ExactRetrievalError::TimedOut))
            ==> timed_out_within(old(clock).retrieval_readings(), final(clock).retrieval_readings(), limits.timeout_nanos),
{
    let ghost start = clock.retrieval_readings();
    proof {
        assert(start.subrange(0, start.len() as int) =~= start);
    }
    if !same_lexical_outcome(&lexical, proof.lexical_outcome()) {
        return Err(RetrievalProofError::ReexecutionMismatch);
    }
    let vector = match replay_exact(witness, proof.vector_request(), limits, clock, started) {
        Ok(o) => o,
        Err(e) => {
            return Err(e);
        },
    };
    if !same_exact_outcome(&vector, proof.vector_outcome()) {
        return Err(RetrievalProofError::ReexecutionMismatch);
    }
    let fusion_request = proof.fusion_request();
    if fusion_request.limit > limits.max_hybrid_returned {
        return Err(RetrievalProofError::Invalid { reason: "hybrid result limit exceeds verifier policy" });
    }
    let actual = match fuse_hybrid(&lexical, &vector, fusion_request) {
        Ok(o) => o,
        Err(e) => {
            return Err(RetrievalProofError::Hybrid(e));
        },
    };
    if !crate::hybrid_proof::same_outcome(&actual, proof.outcome()) {
        return Err(RetrievalProofError::ReexecutionMismatch);
    }
    let ghost before_last = clock.retrieval_readings();
    let last_check = check_deadline(clock, started, limits.timeout_nanos);
    proof {
        lemma_extends_trans(start, before_last, clock.retrieval_readings());
        if last_check is Err {
            let fin = clock.retrieval_readings();
            assert(elapsed_from(started, fin[fin.len() - 1]) >= limits.timeout_nanos);
            assert(elapsed_reached(before_last, fin, started, limits.timeout_nanos));
            lemma_elapsed_widen(start, before_last, fin, started, limits.timeout_nanos);
        }
    }
    match last_check {
        Ok(()) => {},
        Err(e) => {
            return Err(e);
        },
    }
    Ok(HybridRetrievalVerificationReport {
        anchor: *proof.anchor(),
        anchor_digest,
        proof_digest: proof.proof_digest(),
        outcome: actual,
    })
}

} // verus!
