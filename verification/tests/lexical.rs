use hyphae::lexical::{
    tokenize_v1, LexicalAbstention, LexicalAbstentionReason, LexicalError, LexicalField,
    LexicalFieldContribution, LexicalIndexDefinition, LexicalMatch, LexicalOutcome,
    LexicalRequest, LexicalTermContribution,
};
use hyphae::lexical_proof::LexicalRetrievalProof;
use hyphae::retrieval_proof::{
    RetrievalProofError, SnapshotInfo, LEXICAL_RETRIEVAL_SEMANTICS_VERSION,
};
use hyphae::shared::VectorSpaceName;
use hyphae::value::FieldPath;

fn path(segments: &[&str]) -> FieldPath {
    FieldPath::new(segments.iter().map(|s| s.to_string()).collect())
}

fn field(segments: &[&str], weight_micros: u32) -> LexicalField {
    LexicalField {
        path: path(segments),
        weight_micros,
    }
}

fn snapshot(sequence: u64, digest: Option<[u8; 32]>) -> SnapshotInfo {
    SnapshotInfo {
        checkpoint_sequence: sequence,
        checkpoint_digest: digest,
        snapshot_digest: [3; 32],
        disk_format_version: 2,
    }
}

fn request(query: &str, limit: usize) -> LexicalRequest {
    LexicalRequest {
        index: VectorSpaceName::new("articles").unwrap(),
        query: query.to_string(),
        limit,
    }
}

fn term(token: &str, document_frequency: u64, score_nanos: i64) -> LexicalTermContribution {
    LexicalTermContribution {
        token: token.to_string(),
        document_frequency,
        score_nanos,
        fields: vec![LexicalFieldContribution {
            path: path(&["body"]),
            term_frequency: 2,
            field_length: 9,
        }],
    }
}

fn two_term_outcome() -> LexicalOutcome {
    LexicalOutcome::Matches {
        matches: vec![
            LexicalMatch {
                key: b"doc-a".to_vec(),
                score_nanos: 700,
                terms: vec![term("hello", 2, 300), term("world", 1, 400)],
            },
            LexicalMatch {
                key: b"doc-b".to_vec(),
                score_nanos: 300,
                terms: vec![term("hello", 2, 300)],
            },
        ],
        scanned_documents: 5,
        matched_documents: 2,
        query_tokens: vec!["hello".to_string(), "world".to_string()],
    }
}

#[test]
fn tokenizer_pins_nfkc_casefold_and_alphanumeric_runs() {
    assert_eq!(
        tokenize_v1("Straße ＡＢＣ—café"),
        vec!["strasse", "abc", "café"]
    );
}

#[test]
fn tokenizer_splits_on_punctuation_and_keeps_duplicates() {
    assert_eq!(
        tokenize_v1("Hello, hello... WORLD_42!"),
        vec!["hello", "hello", "world", "42"]
    );
    assert!(tokenize_v1("  --  ").is_empty());
    assert!(tokenize_v1("").is_empty());
}

#[test]
fn definition_sorts_fields_by_exact_path() {
    let definition = LexicalIndexDefinition::new(
        VectorSpaceName::new("articles").unwrap(),
        vec![
            field(&["title"], 2_000_000),
            field(&["body"], 1_000_000),
            field(&["body", "summary"], 500_000),
        ],
    )
    .unwrap();
    let paths: Vec<Vec<String>> = definition
        .fields
        .iter()
        .map(|f| f.path.segments().to_vec())
        .collect();
    assert_eq!(
        paths,
        vec![
            vec!["body".to_string()],
            vec!["body".to_string(), "summary".to_string()],
            vec!["title".to_string()],
        ]
    );
    assert_eq!(definition.fields[2].weight_micros, 2_000_000);
}

#[test]
fn definition_errors_are_typed() {
    let name = || VectorSpaceName::new("articles").unwrap();
    assert_eq!(
        LexicalIndexDefinition::new(name(), vec![]),
        Err(LexicalError::EmptyFields)
    );
    assert_eq!(
        LexicalIndexDefinition::new(name(), vec![field(&[], 1)]),
        Err(LexicalError::EmptyFieldPath)
    );
    assert_eq!(
        LexicalIndexDefinition::new(name(), vec![field(&["body", ""], 1)]),
        Err(LexicalError::InvalidFieldSegment)
    );
    assert_eq!(
        LexicalIndexDefinition::new(name(), vec![field(&["body"], 0)]),
        Err(LexicalError::InvalidFieldWeight)
    );
    assert_eq!(
        LexicalIndexDefinition::new(name(), vec![field(&["body"], 1_000_000_001)]),
        Err(LexicalError::InvalidFieldWeight)
    );
    assert_eq!(
        LexicalIndexDefinition::new(name(), vec![field(&["body"], 1), field(&["body"], 2)]),
        Err(LexicalError::DuplicateFieldPath)
    );
    let many: Vec<LexicalField> = (0..65).map(|i| field(&[&format!("f{i}")], 1)).collect();
    assert_eq!(
        LexicalIndexDefinition::new(name(), many),
        Err(LexicalError::TooManyFields)
    );
}

#[test]
fn lexical_proof_codec_round_trips_and_detects_bit_flip() -> Result<(), RetrievalProofError> {
    let proof = LexicalRetrievalProof::new(
        &snapshot(4, Some([8; 32])),
        request("World hello", 2),
        two_term_outcome(),
    )?;
    assert_eq!(proof.semantics_version(), LEXICAL_RETRIEVAL_SEMANTICS_VERSION);
    assert_eq!(proof.request(), &request("World hello", 2));
    assert_eq!(proof.outcome(), &two_term_outcome());
    let encoded = proof.to_bytes()?;
    assert_eq!(&encoded[..8], b"HYRPF001");
    assert_eq!(&encoded[12..14], &2u16.to_le_bytes());
    assert_eq!(&encoded[100..132], &proof.proof_digest());
    let decoded = LexicalRetrievalProof::from_bytes(&encoded)?;
    assert_eq!(decoded, proof);
    assert_eq!(decoded.to_bytes()?, encoded);

    let mut corrupted = encoded;
    let last = corrupted.len() - 1;
    corrupted[last] ^= 1;
    assert_eq!(
        LexicalRetrievalProof::from_bytes(&corrupted),
        Err(RetrievalProofError::ChecksumMismatch)
    );
    Ok(())
}

#[test]
fn lexical_abstention_round_trips() -> Result<(), RetrievalProofError> {
    let outcome = LexicalOutcome::Abstained(LexicalAbstention {
        reason: LexicalAbstentionReason::NoCandidates,
        scanned_documents: 3,
        query_tokens: vec!["zebra".to_string()],
    });
    let proof = LexicalRetrievalProof::new(&snapshot(0, None), request("ZEBRA zebra", 5), outcome.clone())?;
    assert_eq!(proof.outcome(), &outcome);
    let encoded = proof.to_bytes()?;
    assert_eq!(LexicalRetrievalProof::from_bytes(&encoded)?, proof);
    Ok(())
}

#[test]
fn lexical_proof_construction_checks_every_part() {
    let mut legacy = snapshot(1, Some([8; 32]));
    legacy.disk_format_version = 1;
    assert_eq!(
        LexicalRetrievalProof::new(&legacy, request("hello", 2), two_term_outcome()),
        Err(RetrievalProofError::SnapshotFormatMismatch)
    );
    assert_eq!(
        LexicalRetrievalProof::new(&snapshot(0, Some([8; 32])), request("hello world", 2), two_term_outcome()),
        Err(RetrievalProofError::Invalid {
            reason: "noncanonical checkpoint identity"
        })
    );
    assert_eq!(
        LexicalRetrievalProof::new(&snapshot(1, Some([8; 32])), request("hello world", 0), two_term_outcome()),
        Err(RetrievalProofError::Invalid {
            reason: "invalid lexical request"
        })
    );
    assert_eq!(
        LexicalRetrievalProof::new(&snapshot(1, Some([8; 32])), request("?!", 2), two_term_outcome()),
        Err(RetrievalProofError::Invalid {
            reason: "invalid lexical request"
        })
    );
    assert_eq!(
        LexicalRetrievalProof::new(&snapshot(1, Some([8; 32])), request("hello", 2), two_term_outcome()),
        Err(RetrievalProofError::Invalid {
            reason: "noncanonical lexical query tokens"
        })
    );
    assert_eq!(
        LexicalRetrievalProof::new(&snapshot(1, Some([8; 32])), request("hello world", 1), two_term_outcome()),
        Err(RetrievalProofError::Invalid {
            reason: "invalid lexical match counts"
        })
    );
    let mut unsorted = two_term_outcome();
    if let LexicalOutcome::Matches { matches, .. } = &mut unsorted {
        matches.swap(0, 1);
    }
    assert_eq!(
        LexicalRetrievalProof::new(&snapshot(1, Some([8; 32])), request("hello world", 2), unsorted),
        Err(RetrievalProofError::Invalid {
            reason: "lexical matches are not canonically ordered"
        })
    );
    let mut wrong_sum = two_term_outcome();
    if let LexicalOutcome::Matches { matches, .. } = &mut wrong_sum {
        matches[0].score_nanos = 701;
    }
    assert_eq!(
        LexicalRetrievalProof::new(&snapshot(1, Some([8; 32])), request("hello world", 2), wrong_sum),
        Err(RetrievalProofError::Invalid {
            reason: "lexical term scores do not sum to match score"
        })
    );
}

#[test]
fn lexical_proof_header_errors() -> Result<(), RetrievalProofError> {
    let proof = LexicalRetrievalProof::new(
        &snapshot(4, Some([8; 32])),
        request("hello world", 2),
        two_term_outcome(),
    )?;
    let encoded = proof.to_bytes()?;
    assert_eq!(
        LexicalRetrievalProof::from_bytes(&encoded[..100]),
        Err(RetrievalProofError::Invalid {
            reason: "truncated header"
        })
    );
    let mut wrong_operation = encoded.clone();
    wrong_operation[12] = 1;
    assert_eq!(
        LexicalRetrievalProof::from_bytes(&wrong_operation),
        Err(RetrievalProofError::UnsupportedOperation { found: 1 })
    );
    let mut wrong_digest = encoded;
    wrong_digest[100] ^= 1;
    assert_eq!(
        LexicalRetrievalProof::from_bytes(&wrong_digest),
        Err(RetrievalProofError::DigestMismatch)
    );
    Ok(())
}
