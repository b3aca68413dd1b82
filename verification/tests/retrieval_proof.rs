use hyphae::canonical::{
    ExactAbstention, ExactAbstentionReason, ExactRetrievalError, ExactRetrievalMatch,
    ExactRetrievalOutcome, ExactRetrievalRequest,
};
use hyphae::retrieval_proof::{
    ExactRetrievalProof, RetrievalProofAnchor, RetrievalProofError, SnapshotInfo,
    EXACT_RETRIEVAL_SEMANTICS_VERSION,
};
use hyphae::shared::{Q15Vector, VectorSpaceName};

fn snapshot(sequence: u64, digest: Option<[u8; 32]>) -> SnapshotInfo {
    SnapshotInfo {
        checkpoint_sequence: sequence,
        checkpoint_digest: digest,
        snapshot_digest: [9; 32],
        disk_format_version: 2,
    }
}

fn request(limit: usize) -> ExactRetrievalRequest {
    ExactRetrievalRequest {
        vector_space: VectorSpaceName::new("semantic").unwrap(),
        query: Q15Vector::new(vec![32_767, 1]).unwrap(),
        limit,
        minimum_score_nanos: 0,
        minimum_margin_nanos: 7,
    }
}

fn matches(entries: &[(&[u8], i64)], scanned: u64) -> ExactRetrievalOutcome {
    ExactRetrievalOutcome::Matches {
        matches: entries
            .iter()
            .map(|(key, score)| ExactRetrievalMatch {
                key: key.to_vec(),
                score_nanos: *score,
            })
            .collect(),
        scanned_candidates: scanned,
    }
}

#[test]
fn exact_proof_codec_round_trips_and_detects_bit_flip() -> Result<(), RetrievalProofError> {
    let proof = ExactRetrievalProof::new(
        &snapshot(1, Some([7; 32])),
        request(2),
        matches(&[(b"alpha", 999_999_999)], 2),
    )?;
    let encoded = proof.to_bytes()?;
    assert_eq!(ExactRetrievalProof::from_bytes(&encoded)?, proof);

    let mut corrupted = encoded;
    let last = corrupted.len() - 1;
    corrupted[last] ^= 1;
    assert!(ExactRetrievalProof::from_bytes(&corrupted).is_err());
    Ok(())
}

#[test]
fn exact_proof_layout_and_digests() -> Result<(), RetrievalProofError> {
    let proof = ExactRetrievalProof::new(
        &snapshot(1, Some([7; 32])),
        request(2),
        matches(&[(b"alpha", 999_999_999)], 2),
    )?;
    let encoded = proof.to_bytes()?;
    assert_eq!(&encoded[..8], b"HYRPF001");
    assert_eq!(&encoded[8..10], &1u16.to_le_bytes());
    assert_eq!(&encoded[12..14], &1u16.to_le_bytes());
    assert_eq!(&encoded[14..16], &2u16.to_le_bytes());
    assert_eq!(&encoded[16..24], &1u64.to_le_bytes());
    assert_eq!(&encoded[24..56], &[7u8; 32]);
    assert_eq!(&encoded[56..88], &[9u8; 32]);
    let payload_length = u64::from_le_bytes(encoded[88..96].try_into().unwrap());
    assert_eq!(payload_length as usize, encoded.len() - 132);
    let checksum = crc32c::crc32c_append(crc32c::crc32c(&encoded[..96]), &encoded[132..]);
    assert_eq!(&encoded[96..100], &checksum.to_le_bytes());
    let mut hasher = blake3::Hasher::new();
    hasher.update(b"hyphae-retrieval-proof-v1");
    hasher.update(&encoded[..100]);
    hasher.update(&encoded[132..]);
    assert_eq!(&encoded[100..132], hasher.finalize().as_bytes());
    assert_eq!(&proof.proof_digest()[..], &encoded[100..132]);
    assert_eq!(proof.semantics_version(), EXACT_RETRIEVAL_SEMANTICS_VERSION);
    assert_eq!(proof.request().limit, 2);
    assert_eq!(proof.outcome(), &matches(&[(b"alpha", 999_999_999)], 2));
    assert_eq!(
        proof.anchor(),
        &RetrievalProofAnchor {
            checkpoint_sequence: 1,
            checkpoint_digest: Some([7; 32]),
            snapshot_digest: [9; 32],
        }
    );

    let mut anchor_hasher = blake3::Hasher::new();
    anchor_hasher.update(b"hyphae-retrieval-anchor-v1");
    anchor_hasher.update(&1u64.to_le_bytes());
    anchor_hasher.update(&[7u8; 32]);
    anchor_hasher.update(&[9u8; 32]);
    assert_eq!(&proof.anchor_digest(), anchor_hasher.finalize().as_bytes());
    Ok(())
}

#[test]
fn empty_history_anchor_uses_zero_digest() -> Result<(), RetrievalProofError> {
    let abstained = ExactRetrievalOutcome::Abstained(ExactAbstention {
        reason: ExactAbstentionReason::NoCandidates,
        best_score_nanos: None,
        runner_up_score_nanos: None,
        scanned_candidates: 0,
    });
    let proof = ExactRetrievalProof::new(&snapshot(0, None), request(1), abstained)?;
    let encoded = proof.to_bytes()?;
    assert_eq!(&encoded[24..56], &[0u8; 32]);
    assert_eq!(ExactRetrievalProof::from_bytes(&encoded)?, proof);

    let anchor = RetrievalProofAnchor {
        checkpoint_sequence: 0,
        checkpoint_digest: None,
        snapshot_digest: [9; 32],
    };
    let mut hasher = blake3::Hasher::new();
    hasher.update(b"hyphae-retrieval-anchor-v1");
    hasher.update(&0u64.to_le_bytes());
    hasher.update(&[0u8; 32]);
    hasher.update(&[9u8; 32]);
    assert_eq!(&anchor.digest(), hasher.finalize().as_bytes());
    Ok(())
}

#[test]
fn header_failures_are_typed() -> Result<(), RetrievalProofError> {
    let proof = ExactRetrievalProof::new(
        &snapshot(3, Some([1; 32])),
        request(2),
        matches(&[(b"a", 10), (b"b", 10)], 5),
    )?;
    let encoded = proof.to_bytes()?;

    assert_eq!(
        ExactRetrievalProof::from_bytes(&encoded[..100]),
        Err(RetrievalProofError::Invalid { reason: "truncated header" })
    );
    let mut bad = encoded.clone();
    bad[0] = b'X';
    assert_eq!(
        ExactRetrievalProof::from_bytes(&bad),
        Err(RetrievalProofError::Invalid { reason: "bad magic" })
    );
    let mut bad = encoded.clone();
    bad[8] = 2;
    assert_eq!(
        ExactRetrievalProof::from_bytes(&bad),
        Err(RetrievalProofError::UnsupportedVersion { found: 2, supported: 1 })
    );
    let mut bad = encoded.clone();
    bad[10] = 1;
    assert_eq!(
        ExactRetrievalProof::from_bytes(&bad),
        Err(RetrievalProofError::Invalid { reason: "unsupported flags" })
    );
    let mut bad = encoded.clone();
    bad[12] = 2;
    assert_eq!(
        ExactRetrievalProof::from_bytes(&bad),
        Err(RetrievalProofError::UnsupportedOperation { found: 2 })
    );
    let mut bad = encoded.clone();
    bad[14] = 1;
    assert_eq!(
        ExactRetrievalProof::from_bytes(&bad),
        Err(RetrievalProofError::UnsupportedSemantics { found: 1, supported: 2 })
    );
    let mut bad = encoded.clone();
    bad.push(0);
    assert_eq!(
        ExactRetrievalProof::from_bytes(&bad),
        Err(RetrievalProofError::Invalid { reason: "file length mismatch" })
    );
    let mut bad = encoded.clone();
    bad[40] ^= 1;
    assert_eq!(
        ExactRetrievalProof::from_bytes(&bad),
        Err(RetrievalProofError::ChecksumMismatch)
    );
    let mut bad = encoded.clone();
    bad[120] ^= 1;
    assert_eq!(
        ExactRetrievalProof::from_bytes(&bad),
        Err(RetrievalProofError::DigestMismatch)
    );
    Ok(())
}

#[test]
fn construction_checks_every_embedded_part() {
    let mut legacy = snapshot(1, Some([7; 32]));
    legacy.disk_format_version = 1;
    assert_eq!(
        ExactRetrievalProof::new(&legacy, request(1), matches(&[(b"a", 1)], 1)),
        Err(RetrievalProofError::SnapshotFormatMismatch)
    );
    assert_eq!(
        ExactRetrievalProof::new(&snapshot(0, Some([1; 32])), request(1), matches(&[(b"a", 1)], 1)),
        Err(RetrievalProofError::Invalid { reason: "noncanonical checkpoint identity" })
    );
    assert_eq!(
        ExactRetrievalProof::new(&snapshot(1, Some([1; 32])), request(0), matches(&[(b"a", 1)], 1)),
        Err(RetrievalProofError::Retrieval(ExactRetrievalError::ZeroLimit))
    );
    assert_eq!(
        ExactRetrievalProof::new(&snapshot(1, Some([1; 32])), request(1), matches(&[(b"a", 1), (b"b", 0)], 2)),
        Err(RetrievalProofError::Invalid { reason: "invalid match count" })
    );
    assert_eq!(
        ExactRetrievalProof::new(&snapshot(1, Some([1; 32])), request(2), matches(&[(b"b", 1), (b"a", 1)], 2)),
        Err(RetrievalProofError::Invalid { reason: "matches are not canonically ordered" })
    );
    assert_eq!(
        ExactRetrievalProof::new(&snapshot(1, Some([1; 32])), request(2), matches(&[(b"", 1)], 2)),
        Err(RetrievalProofError::Invalid { reason: "invalid exact match" })
    );
    let ambiguous_without_runner_up = ExactRetrievalOutcome::Abstained(ExactAbstention {
        reason: ExactAbstentionReason::Ambiguous,
        best_score_nanos: Some(5),
        runner_up_score_nanos: None,
        scanned_candidates: 2,
    });
    assert_eq!(
        ExactRetrievalProof::new(&snapshot(1, Some([1; 32])), request(2), ambiguous_without_runner_up),
        Err(RetrievalProofError::Invalid { reason: "noncanonical abstention evidence" })
    );
    let out_of_range = ExactRetrievalOutcome::Abstained(ExactAbstention {
        reason: ExactAbstentionReason::BelowThreshold,
        best_score_nanos: Some(1_000_000_001),
        runner_up_score_nanos: None,
        scanned_candidates: 1,
    });
    assert_eq!(
        ExactRetrievalProof::new(&snapshot(1, Some([1; 32])), request(2), out_of_range),
        Err(RetrievalProofError::Invalid { reason: "invalid abstention score" })
    );
}
