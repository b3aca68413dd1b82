use hyphae::query::ClockReadings;
use hyphae::canonical::{
    cosine_score_nanos, retrieve_exact_with_clock, DurableVectorRecord, ExactAbstention,
    ExactAbstentionReason, ExactRetrievalClock, ExactRetrievalError, ExactRetrievalLimits,
    ExactRetrievalOutcome, ExactRetrievalRequest,
};
use hyphae::shared::{Q15Vector, VectorSpaceName, VectorValueError};

struct StepClock(u128);

impl ExactRetrievalClock for StepClock {
    fn retrieval_readings(&self) -> ClockReadings {
        unreachable!()
    }

    fn now(&mut self) -> u128 {
        let current = self.0;
        self.0 = self.0.saturating_add(1_000_000);
        current
    }
}

fn request() -> Result<ExactRetrievalRequest, VectorValueError> {
    Ok(ExactRetrievalRequest {
        vector_space: VectorSpaceName::new("semantic")?,
        query: Q15Vector::new(vec![32_767, 0])?,
        limit: 3,
        minimum_score_nanos: -1_000_000_000,
        minimum_margin_nanos: 0,
    })
}

#[test]
fn canonical_scores_cover_same_orthogonal_and_opposite() {
    let query = Q15Vector::new(vec![32_767, 0]).unwrap();
    assert_eq!(
        cosine_score_nanos(&query, &Q15Vector::new(vec![32_767, 0]).unwrap()).unwrap(),
        1_000_000_000
    );
    assert_eq!(
        cosine_score_nanos(&query, &Q15Vector::new(vec![0, 32_767]).unwrap()).unwrap(),
        0
    );
    assert_eq!(
        cosine_score_nanos(&query, &Q15Vector::new(vec![-32_767, 0]).unwrap()).unwrap(),
        -1_000_000_000
    );
}

#[test]
fn exact_ranking_uses_score_then_binary_key() {
    let candidates = vec![
        DurableVectorRecord {
            key: vec![0xff],
            vector: Q15Vector::new(vec![7, 7]).unwrap(),
        },
        DurableVectorRecord {
            key: vec![0],
            vector: Q15Vector::new(vec![2, 2]).unwrap(),
        },
    ];
    let mut tied = request().unwrap();
    tied.query = Q15Vector::new(vec![1, 1]).unwrap();
    tied.limit = 2;
    let outcome = retrieve_exact_with_clock(
        &candidates,
        &tied,
        &ExactRetrievalLimits::default(),
        &mut StepClock(0),
    )
    .unwrap();
    let ExactRetrievalOutcome::Matches { matches, .. } = outcome else {
        panic!("unexpected abstention");
    };
    assert_eq!(matches[0].key, vec![0]);
    assert_eq!(matches[1].key, vec![0xff]);
}

#[test]
fn empty_space_is_typed_abstention() {
    let outcome = retrieve_exact_with_clock(
        &[],
        &request().unwrap(),
        &ExactRetrievalLimits::default(),
        &mut StepClock(0),
    )
    .unwrap();
    assert!(matches!(
        outcome,
        ExactRetrievalOutcome::Abstained(ExactAbstention {
            reason: ExactAbstentionReason::NoCandidates,
            ..
        })
    ));
}

#[test]
fn sparse_near_ties_are_distinct_and_obey_margin_policy() {
    let candidates = vec![
        DurableVectorRecord {
            key: b"near-a".to_vec(),
            vector: Q15Vector::new(vec![32_767, 16, 0, 0, 0, 0, 0, 0]).unwrap(),
        },
        DurableVectorRecord {
            key: b"near-b".to_vec(),
            vector: Q15Vector::new(vec![32_767, 32, 0, 0, 0, 0, 0, 0]).unwrap(),
        },
    ];
    let mut near_tie = request().unwrap();
    near_tie.query = Q15Vector::new(vec![32_767, 0, 0, 0, 0, 0, 0, 0]).unwrap();
    near_tie.limit = 2;
    let ranked = retrieve_exact_with_clock(
        &candidates,
        &near_tie,
        &ExactRetrievalLimits::default(),
        &mut StepClock(0),
    )
    .unwrap();
    let ExactRetrievalOutcome::Matches { matches, .. } = ranked else {
        panic!("unexpected abstention");
    };
    assert_eq!(matches[0].key, b"near-a");
    assert_eq!(matches[1].key, b"near-b");
    let margin = u64::try_from(matches[0].score_nanos - matches[1].score_nanos).unwrap();
    assert!(margin > 0);

    near_tie.minimum_margin_nanos = margin.saturating_add(1);
    let abstained = retrieve_exact_with_clock(
        &candidates,
        &near_tie,
        &ExactRetrievalLimits::default(),
        &mut StepClock(0),
    )
    .unwrap();
    assert!(matches!(
        abstained,
        ExactRetrievalOutcome::Abstained(ExactAbstention {
            reason: ExactAbstentionReason::Ambiguous,
            ..
        })
    ));
}

#[test]
fn exact_errors_and_threshold() {
    let candidates = vec![
        DurableVectorRecord {
            key: b"a".to_vec(),
            vector: Q15Vector::new(vec![0, 5]).unwrap(),
        },
        DurableVectorRecord {
            key: b"a".to_vec(),
            vector: Q15Vector::new(vec![1, 5]).unwrap(),
        },
    ];
    let req = request().unwrap();
    assert_eq!(
        retrieve_exact_with_clock(&candidates, &req, &ExactRetrievalLimits::default(), &mut StepClock(0)).err(),
        Some(ExactRetrievalError::DuplicateCandidateKey)
    );
    let mut strict = request().unwrap();
    strict.minimum_score_nanos = 1;
    let out = retrieve_exact_with_clock(&candidates[..1], &strict, &ExactRetrievalLimits::default(), &mut StepClock(0)).unwrap();
    assert_eq!(
        out,
        ExactRetrievalOutcome::Abstained(ExactAbstention {
            reason: ExactAbstentionReason::BelowThreshold,
            best_score_nanos: Some(0),
            runner_up_score_nanos: None,
            scanned_candidates: 1,
        })
    );
    let mut zero = request().unwrap();
    zero.limit = 0;
    assert_eq!(
        retrieve_exact_with_clock(&candidates, &zero, &ExactRetrievalLimits::default(), &mut StepClock(0)).err(),
        Some(ExactRetrievalError::ZeroLimit)
    );
    let mismatch = vec![DurableVectorRecord {
        key: b"m".to_vec(),
        vector: Q15Vector::new(vec![1, 2, 3]).unwrap(),
    }];
    assert_eq!(
        retrieve_exact_with_clock(&mismatch, &req, &ExactRetrievalLimits::default(), &mut StepClock(0)).err(),
        Some(ExactRetrievalError::DimensionMismatch { expected: 2, found: 3 })
    );
    let tight = ExactRetrievalLimits {
        max_candidate_bytes: 4,
        ..ExactRetrievalLimits::default()
    };
    assert_eq!(
        retrieve_exact_with_clock(&candidates, &req, &tight, &mut StepClock(0)).err(),
        Some(ExactRetrievalError::CandidateByteBudgetExceeded { maximum: 4 })
    );
    assert_eq!(
        cosine_score_nanos(&Q15Vector::new(vec![1]).unwrap(), &Q15Vector::new(vec![1, 2]).unwrap()),
        Err(ExactRetrievalError::DimensionMismatch { expected: 1, found: 2 })
    );
    let slow = ExactRetrievalLimits {
        timeout_nanos: 1_000_000,
        ..ExactRetrievalLimits::default()
    };
    assert_eq!(
        retrieve_exact_with_clock(&candidates, &req, &slow, &mut StepClock(0)).err(),
        Some(ExactRetrievalError::TimedOut)
    );
}
