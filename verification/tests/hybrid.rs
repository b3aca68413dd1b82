use hyphae::canonical::{
    ExactAbstention, ExactAbstentionReason, ExactRetrievalMatch, ExactRetrievalOutcome,
};
use hyphae::hybrid::{
    fuse_hybrid, HybridAbstention, HybridBranchAbsence, HybridError, HybridOutcome,
    HybridRequest,
};
use hyphae::lexical::{LexicalAbstention, LexicalAbstentionReason, LexicalMatch, LexicalOutcome};

fn lexical(keys: &[&[u8]]) -> LexicalOutcome {
    LexicalOutcome::Matches {
        matches: keys
            .iter()
            .enumerate()
            .map(|(index, key)| LexicalMatch {
                key: key.to_vec(),
                score_nanos: 100 - i64::try_from(index).unwrap_or(0),
                terms: Vec::new(),
            })
            .collect(),
        scanned_documents: keys.len() as u64,
        matched_documents: keys.len() as u64,
        query_tokens: vec!["x".into()],
    }
}

fn vector(keys: &[&[u8]]) -> ExactRetrievalOutcome {
    ExactRetrievalOutcome::Matches {
        matches: keys
            .iter()
            .enumerate()
            .map(|(index, key)| ExactRetrievalMatch {
                key: key.to_vec(),
                score_nanos: 100 - i64::try_from(index).unwrap_or(0),
            })
            .collect(),
        scanned_candidates: keys.len() as u64,
    }
}

fn request(lexical_weight: u32, vector_weight: u32, limit: usize) -> HybridRequest {
    HybridRequest {
        lexical_weight,
        vector_weight,
        limit,
    }
}

#[test]
fn rrf_deduplicates_and_explains_rank() -> Result<(), HybridError> {
    let outcome = fuse_hybrid(
        &lexical(&[b"a", b"b"]),
        &vector(&[b"b", b"c"]),
        &HybridRequest {
            lexical_weight: 1,
            vector_weight: 1,
            limit: 3,
        },
    )?;
    let HybridOutcome::Matches { matches, .. } = outcome else {
        return Err(HybridError::ArithmeticOverflow);
    };
    assert_eq!(matches[0].key, b"b");
    assert_eq!(matches[0].explanation.lexical_rank, Some(2));
    assert_eq!(matches[0].explanation.vector_rank, Some(1));
    assert_eq!(matches[0].explanation.final_rank, 1);
    Ok(())
}

#[test]
fn one_abstaining_branch_is_explicit() -> Result<(), HybridError> {
    let lexical = LexicalOutcome::Abstained(LexicalAbstention {
        reason: LexicalAbstentionReason::NoCandidates,
        scanned_documents: 1,
        query_tokens: vec!["x".into()],
    });
    let outcome = fuse_hybrid(
        &lexical,
        &vector(&[b"a"]),
        &HybridRequest {
            lexical_weight: 1,
            vector_weight: 1,
            limit: 1,
        },
    )?;
    assert!(matches!(
        outcome,
        HybridOutcome::Matches {
            lexical_absence: Some(HybridBranchAbsence::LexicalNoCandidates),
            ..
        }
    ));
    let both = fuse_hybrid(
        &lexical,
        &ExactRetrievalOutcome::Abstained(ExactAbstention {
            reason: ExactAbstentionReason::NoCandidates,
            best_score_nanos: None,
            runner_up_score_nanos: None,
            scanned_candidates: 0,
        }),
        &HybridRequest {
            lexical_weight: 1,
            vector_weight: 1,
            limit: 1,
        },
    )?;
    assert!(matches!(both, HybridOutcome::Abstained(_)));
    Ok(())
}

#[test]
fn contributions_are_exact_integer_rrf() {
    let outcome = fuse_hybrid(&lexical(&[b"a", b"b"]), &vector(&[b"b", b"c"]), &request(1, 1, 3)).unwrap();
    let HybridOutcome::Matches { matches, lexical_absence, vector_absence } = outcome else {
        panic!("unexpected abstention");
    };
    assert_eq!(lexical_absence, None);
    assert_eq!(vector_absence, None);
    let keys: Vec<&[u8]> = matches.iter().map(|m| m.key.as_slice()).collect();
    assert_eq!(keys, vec![&b"b"[..], &b"a"[..], &b"c"[..]]);
    let b = &matches[0].explanation;
    assert_eq!(b.lexical_contribution, 1_000_000_000 / 62);
    assert_eq!(b.vector_contribution, 1_000_000_000 / 61);
    assert_eq!(b.fusion_score, 16_129_032 + 16_393_442);
    assert_eq!(b.lexical_score_nanos, Some(99));
    assert_eq!(b.vector_score_nanos, Some(100));
    let a = &matches[1].explanation;
    assert_eq!(a.lexical_rank, Some(1));
    assert_eq!(a.vector_rank, None);
    assert_eq!(a.vector_contribution, 0);
    assert_eq!(a.fusion_score, 16_393_442);
    assert_eq!(a.final_rank, 2);
    let c = &matches[2].explanation;
    assert_eq!(c.vector_rank, Some(2));
    assert_eq!(c.fusion_score, 16_129_032);
    assert_eq!(c.final_rank, 3);
}

#[test]
fn equal_scores_break_ties_by_key_and_limit_truncates() {
    let outcome = fuse_hybrid(&lexical(&[b"z"]), &vector(&[b"m"]), &request(7, 7, 1)).unwrap();
    let HybridOutcome::Matches { matches, .. } = outcome else {
        panic!("unexpected abstention");
    };
    assert_eq!(matches.len(), 1);
    assert_eq!(matches[0].key, b"m");
    assert_eq!(matches[0].explanation.fusion_score, 7_000_000_000 / 61);
    assert_eq!(matches[0].explanation.final_rank, 1);
}

#[test]
fn fusion_errors_are_typed() {
    assert_eq!(
        fuse_hybrid(&lexical(&[b"a"]), &vector(&[b"a"]), &request(0, 1, 1)),
        Err(HybridError::InvalidWeight)
    );
    assert_eq!(
        fuse_hybrid(&lexical(&[b"a"]), &vector(&[b"a"]), &request(1, 1_000_001, 1)),
        Err(HybridError::InvalidWeight)
    );
    assert_eq!(
        fuse_hybrid(&lexical(&[b"a"]), &vector(&[b"a"]), &request(1, 1, 0)),
        Err(HybridError::ZeroLimit)
    );
    assert_eq!(
        fuse_hybrid(&lexical(&[b"a", b"a"]), &vector(&[b"b"]), &request(1, 1, 1)),
        Err(HybridError::DuplicateBranchKey)
    );
    assert_eq!(
        fuse_hybrid(&lexical(&[b"a"]), &vector(&[b"b", b"b"]), &request(1, 1, 1)),
        Err(HybridError::DuplicateBranchKey)
    );
    let both = fuse_hybrid(
        &LexicalOutcome::Abstained(LexicalAbstention {
            reason: LexicalAbstentionReason::NoCandidates,
            scanned_documents: 0,
            query_tokens: vec!["x".into()],
        }),
        &ExactRetrievalOutcome::Abstained(ExactAbstention {
            reason: ExactAbstentionReason::Ambiguous,
            best_score_nanos: Some(5),
            runner_up_score_nanos: Some(4),
            scanned_candidates: 2,
        }),
        &request(1, 1, 1),
    );
    assert_eq!(
        both,
        Ok(HybridOutcome::Abstained(HybridAbstention {
            lexical: HybridBranchAbsence::LexicalNoCandidates,
            vector: HybridBranchAbsence::VectorAmbiguous,
        }))
    );
}
