use hyphae::canonical::{ExactRetrievalMatch, ExactRetrievalOutcome, ExactRetrievalRequest};
use hyphae::hybrid::{fuse_hybrid, HybridError, HybridOutcome, HybridRequest};
use hyphae::hybrid_proof::HybridRetrievalProof;
use hyphae::lexical::{
    LexicalFieldContribution, LexicalMatch, LexicalOutcome, LexicalRequest,
    LexicalTermContribution,
};
use hyphae::retrieval_proof::{
    RetrievalProofError, SnapshotInfo, HYBRID_RETRIEVAL_SEMANTICS_VERSION,
};
use hyphae::shared::{Q15Vector, VectorSpaceName};
use hyphae::value::FieldPath;

fn snapshot() -> SnapshotInfo {
    SnapshotInfo {
        checkpoint_sequence: 6,
        checkpoint_digest: Some([5; 32]),
        snapshot_digest: [4; 32],
        disk_format_version: 2,
    }
}

fn lexical_request() -> LexicalRequest {
    LexicalRequest {
        index: VectorSpaceName::new("articles").unwrap(),
        query: "hello".to_string(),
        limit: 2,
    }
}

fn lexical_outcome() -> LexicalOutcome {
    let term = |score: i64| LexicalTermContribution {
        token: "hello".to_string(),
        document_frequency: 2,
        score_nanos: score,
        fields: vec![LexicalFieldContribution {
            path: FieldPath::new(vec!["body".to_string()]),
            term_frequency: 1,
            field_length: 4,
        }],
    };
    LexicalOutcome::Matches {
        matches: vec![
            LexicalMatch {
                key: b"alpha".to_vec(),
                score_nanos: 500,
                terms: vec![term(500)],
            },
            LexicalMatch {
                key: b"beta".to_vec(),
                score_nanos: 400,
                terms: vec![term(400)],
            },
        ],
        scanned_documents: 3,
        matched_documents: 2,
        query_tokens: vec!["hello".to_string()],
    }
}

fn vector_request() -> ExactRetrievalRequest {
    ExactRetrievalRequest {
        vector_space: VectorSpaceName::new("semantic").unwrap(),
        query: Q15Vector::new(vec![32_767, 1]).unwrap(),
        limit: 2,
        minimum_score_nanos: 0,
        minimum_margin_nanos: 7,
    }
}

fn vector_outcome() -> ExactRetrievalOutcome {
    ExactRetrievalOutcome::Matches {
        matches: vec![
            ExactRetrievalMatch {
                key: b"beta".to_vec(),
                score_nanos: 999_999_999,
            },
            ExactRetrievalMatch {
                key: b"gamma".to_vec(),
                score_nanos: 500_000_000,
            },
        ],
        scanned_candidates: 3,
    }
}

fn fusion_request() -> HybridRequest {
    HybridRequest {
        lexical_weight: 2,
        vector_weight: 1,
        limit: 3,
    }
}

fn fused() -> HybridOutcome {
    fuse_hybrid(&lexical_outcome(), &vector_outcome(), &fusion_request()).unwrap()
}

fn sample_proof() -> HybridRetrievalProof {
    HybridRetrievalProof::new(
        &snapshot(),
        lexical_request(),
        lexical_outcome(),
        vector_request(),
        vector_outcome(),
        fusion_request(),
        fused(),
    )
    .unwrap()
}

#[test]
fn hybrid_proof_codec_round_trips_and_detects_bit_flip() -> Result<(), RetrievalProofError> {
    let proof = sample_proof();
    assert_eq!(proof.semantics_version(), HYBRID_RETRIEVAL_SEMANTICS_VERSION);
    assert_eq!(proof.outcome(), &fused());
    assert_eq!(proof.fusion_request(), &fusion_request());
    let encoded = proof.to_bytes()?;
    assert_eq!(&encoded[..8], b"HYRPF001");
    assert_eq!(&encoded[12..14], &3u16.to_le_bytes());
    assert_eq!(&encoded[100..132], &proof.proof_digest());
    let decoded = HybridRetrievalProof::from_bytes(&encoded)?;
    assert_eq!(decoded, proof);
    assert_eq!(decoded.to_bytes()?, encoded);
    let mut corrupted = encoded;
    let middle = corrupted.len() / 2;
    corrupted[middle] ^= 0x40;
    assert_eq!(
        HybridRetrievalProof::from_bytes(&corrupted),
        Err(RetrievalProofError::ChecksumMismatch)
    );
    Ok(())
}

#[test]
fn hybrid_proof_fused_ranking_is_explained() {
    let HybridOutcome::Matches { matches, .. } = fused() else {
        panic!("unexpected abstention");
    };
    let keys: Vec<&[u8]> = matches.iter().map(|m| m.key.as_slice()).collect();
    assert_eq!(keys, vec![&b"beta"[..], &b"alpha"[..], &b"gamma"[..]]);
    assert_eq!(
        matches[0].explanation.fusion_score,
        2_000_000_000 / 62 + 1_000_000_000 / 61
    );
}

#[test]
fn hybrid_proof_rejects_an_outcome_that_is_not_the_fusion() {
    let HybridOutcome::Matches {
        mut matches,
        lexical_absence,
        vector_absence,
    } = fused()
    else {
        panic!("unexpected abstention");
    };
    matches.swap(0, 1);
    let tampered = HybridOutcome::Matches {
        matches,
        lexical_absence,
        vector_absence,
    };
    assert_eq!(
        HybridRetrievalProof::new(
            &snapshot(),
            lexical_request(),
            lexical_outcome(),
            vector_request(),
            vector_outcome(),
            fusion_request(),
            tampered,
        ),
        Err(RetrievalProofError::Invalid {
            reason: "hybrid outcome does not match its branch outcomes"
        })
    );
    let mut zero = fusion_request();
    zero.lexical_weight = 0;
    assert_eq!(
        HybridRetrievalProof::new(
            &snapshot(),
            lexical_request(),
            lexical_outcome(),
            vector_request(),
            vector_outcome(),
            zero,
            fused(),
        ),
        Err(RetrievalProofError::Hybrid(HybridError::InvalidWeight))
    );
    let mut legacy = snapshot();
    legacy.disk_format_version = 1;
    assert_eq!(
        HybridRetrievalProof::new(
            &legacy,
            lexical_request(),
            lexical_outcome(),
            vector_request(),
            vector_outcome(),
            fusion_request(),
            fused(),
        ),
        Err(RetrievalProofError::SnapshotFormatMismatch)
    );
}

#[test]
fn hybrid_proof_header_errors() {
    let encoded = sample_proof().to_bytes().unwrap();
    let mut wrong_operation = encoded.clone();
    wrong_operation[12] = 2;
    assert_eq!(
        HybridRetrievalProof::from_bytes(&wrong_operation),
        Err(RetrievalProofError::UnsupportedOperation { found: 2 })
    );
    let mut wrong_semantics = encoded;
    wrong_semantics[14] = 9;
    assert_eq!(
        HybridRetrievalProof::from_bytes(&wrong_semantics),
        Err(RetrievalProofError::UnsupportedSemantics {
            found: 9,
            supported: HYBRID_RETRIEVAL_SEMANTICS_VERSION
        })
    );
}
