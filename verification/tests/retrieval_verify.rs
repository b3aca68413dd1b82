use hyphae::query::ClockReadings;
use hyphae::canonical::{
    retrieve_exact_with_clock, DurableVectorRecord, ExactRetrievalClock, ExactRetrievalLimits,
    ExactRetrievalOutcome, ExactRetrievalRequest,
};
use hyphae::retrieval_proof::{
    ExactRetrievalProof, RetrievalProofAnchor, RetrievalProofError, SnapshotInfo,
};
use hyphae::retrieval_verify::{
    check_anchor_digest, check_declared_length, check_read_length, check_witness,
    verify_exact_proof, verify_exact_witness, RetrievalVerificationLimits, SnapshotVector, SnapshotWitness,
};
use hyphae::shared::{Q15Vector, VectorSpaceDefinition, VectorSpaceName, VectorValueError};

struct StepClock(u128);

impl ExactRetrievalClock for StepClock {
    fn retrieval_readings(&self) -> ClockReadings {
        unreachable!()
    }

    fn now(&mut self) -> u128 {
        let current = self.0;
        self.0 = self.0.saturating_add(1_000);
        current
    }
}

fn info() -> SnapshotInfo {
    SnapshotInfo {
        checkpoint_sequence: 3,
        checkpoint_digest: Some([1; 32]),
        snapshot_digest: [2; 32],
        disk_format_version: 2,
    }
}

fn space() -> VectorSpaceName {
    VectorSpaceName::new("semantic").unwrap()
}

fn request() -> ExactRetrievalRequest {
    ExactRetrievalRequest {
        vector_space: space(),
        query: Q15Vector::new(vec![32_767, 1]).unwrap(),
        limit: 2,
        minimum_score_nanos: 0,
        minimum_margin_nanos: 7,
    }
}

fn witness() -> SnapshotWitness {
    let vector = |space: &str, key: &[u8], values: Vec<i16>| SnapshotVector {
        space: VectorSpaceName::new(space).unwrap(),
        key: key.to_vec(),
        vector: Q15Vector::new(values).unwrap(),
    };
    SnapshotWitness {
        info: info(),
        vector_spaces: vec![
            VectorSpaceDefinition::cosine(VectorSpaceName::new("other").unwrap(), 3).unwrap(),
            VectorSpaceDefinition::cosine(space(), 2).unwrap(),
        ],
        vectors: vec![
            vector("semantic", b"alpha", vec![32_767, 1]),
            vector("other", b"zeta", vec![1, 2, 3]),
            vector("semantic", b"beta", vec![1, 32_767]),
        ],
    }
}

fn replayed() -> ExactRetrievalOutcome {
    let candidates = vec![
        DurableVectorRecord {
            key: b"alpha".to_vec(),
            vector: Q15Vector::new(vec![32_767, 1]).unwrap(),
        },
        DurableVectorRecord {
            key: b"beta".to_vec(),
            vector: Q15Vector::new(vec![1, 32_767]).unwrap(),
        },
    ];
    retrieve_exact_with_clock(
        &candidates,
        &request(),
        &ExactRetrievalLimits::default(),
        &mut StepClock(0),
    )
    .unwrap()
}

#[test]
fn proof_file_lengths_are_bounded() {
    assert_eq!(check_declared_length(10, 10), Ok(10));
    assert_eq!(
        check_declared_length(11, 10),
        Err(RetrievalProofError::ProofLimitExceeded {
            actual: 11,
            maximum: 10
        })
    );
    assert_eq!(check_read_length(10, 10, 10), Ok(()));
    assert_eq!(
        check_read_length(12, 10, 11),
        Err(RetrievalProofError::ProofLimitExceeded {
            actual: 12,
            maximum: 11
        })
    );
    assert_eq!(
        check_read_length(9, 10, 11),
        Err(RetrievalProofError::Invalid {
            reason: "proof changed while being read"
        })
    );
}

#[test]
fn pinned_anchor_and_witness_binding() {
    let anchor = RetrievalProofAnchor::from_snapshot(&info());
    let digest = anchor.digest();
    assert_eq!(check_anchor_digest(&anchor, digest), Ok(digest));
    let mut wrong = digest;
    wrong[0] ^= 1;
    assert_eq!(
        check_anchor_digest(&anchor, wrong),
        Err(RetrievalProofError::AnchorMismatch)
    );
    assert_eq!(check_witness(&anchor, &info()), Ok(()));
    let mut legacy = info();
    legacy.disk_format_version = 1;
    assert_eq!(
        check_witness(&anchor, &legacy),
        Err(RetrievalProofError::SnapshotFormatMismatch)
    );
    let mut moved = info();
    moved.snapshot_digest[5] = 9;
    assert_eq!(
        check_witness(&anchor, &moved),
        Err(RetrievalProofError::SnapshotAnchorMismatch)
    );
}

#[test]
fn exact_replay_reproduces_the_proven_outcome() {
    let proof = ExactRetrievalProof::new(&info(), request(), replayed()).unwrap();
    let digest = proof.anchor_digest();
    let report = verify_exact_witness(
        &proof,
        digest,
        &witness(),
        &RetrievalVerificationLimits::default(),
        &mut StepClock(0),
        0,
    )
    .unwrap();
    assert_eq!(report.outcome, replayed());
    assert_eq!(report.anchor_digest, digest);
    assert_eq!(report.proof_digest, proof.proof_digest());
    assert_eq!(&report.anchor, proof.anchor());
}

#[test]
fn exact_replay_rejects_a_different_outcome_and_unknown_spaces() {
    let ExactRetrievalOutcome::Matches {
        mut matches,
        scanned_candidates,
    } = replayed()
    else {
        panic!("unexpected abstention");
    };
    matches.pop();
    let forged = ExactRetrievalProof::new(
        &info(),
        request(),
        ExactRetrievalOutcome::Matches {
            matches,
            scanned_candidates,
        },
    )
    .unwrap();
    assert_eq!(
        verify_exact_witness(
            &forged,
            forged.anchor_digest(),
            &witness(),
            &RetrievalVerificationLimits::default(),
            &mut StepClock(0),
            0,
        ),
        Err(RetrievalProofError::ReexecutionMismatch)
    );
    let mut no_space = witness();
    no_space.vector_spaces.remove(1);
    let proof = ExactRetrievalProof::new(&info(), request(), replayed()).unwrap();
    assert_eq!(
        verify_exact_witness(
            &proof,
            proof.anchor_digest(),
            &no_space,
            &RetrievalVerificationLimits::default(),
            &mut StepClock(0),
            0,
        ),
        Err(RetrievalProofError::Invalid {
            reason: "proof references an unknown vector space"
        })
    );
    let mut wrong_dimension = witness();
    wrong_dimension.vector_spaces[1] =
        VectorSpaceDefinition::cosine(space(), 3).unwrap();
    assert_eq!(
        verify_exact_witness(
            &proof,
            proof.anchor_digest(),
            &wrong_dimension,
            &RetrievalVerificationLimits::default(),
            &mut StepClock(0),
            0,
        ),
        Err(RetrievalProofError::Vector(VectorValueError::DimensionMismatch))
    );
    let mut limits = RetrievalVerificationLimits::default();
    limits.timeout_nanos = 1;
    assert_eq!(
        verify_exact_witness(
            &proof,
            proof.anchor_digest(),
            &witness(),
            &limits,
            &mut StepClock(5),
            0,
        ),
        Err(RetrievalProofError::TimedOut)
    );
}

#[test]
fn exact_proof_verification_checks_the_pinned_anchor_first() {
    let proof = ExactRetrievalProof::new(&info(), request(), replayed()).unwrap();
    let digest = proof.anchor_digest();
    let mut wrong = digest;
    wrong[0] ^= 1;
    assert_eq!(
        verify_exact_proof(&proof, wrong, &witness(), &RetrievalVerificationLimits::default(), &mut StepClock(0), 0),
        Err(RetrievalProofError::AnchorMismatch)
    );
    let report =
        verify_exact_proof(&proof, digest, &witness(), &RetrievalVerificationLimits::default(), &mut StepClock(0), 0)
            .unwrap();
    assert_eq!(report.anchor_digest, digest);
    assert_eq!(report.outcome, replayed());
}

#[test]
fn exact_proof_verification_times_out_once_the_clock_passes_the_limit() {
    let proof = ExactRetrievalProof::new(&info(), request(), replayed()).unwrap();
    let limits = RetrievalVerificationLimits { timeout_nanos: 500, ..RetrievalVerificationLimits::default() };
    assert_eq!(
        verify_exact_proof(&proof, proof.anchor_digest(), &witness(), &limits, &mut StepClock(1_000), 0),
        Err(RetrievalProofError::TimedOut)
    );
}
