use hyphae::query::ClockReadings;
use hyphae::lexical::{
    LexicalAbstentionReason, LexicalError, LexicalField, LexicalIndexDefinition, LexicalLimits,
    LexicalMatch, LexicalOutcome, LexicalRequest,
};
use hyphae::lexical_execution::{
    document_frequency, document_has_token, term_frequency, AnalyzedCorpus, AnalyzedDocument,
    analyze_records, earlier_repeats, finish_ranking, query_tokens_v1, validate_execution,
    validate_materialized_corpus, LexicalMaterializedCorpus, LexicalMaterializedDocument,
};
use hyphae::query::{MonotonicClock, Record};
use hyphae::shared::VectorSpaceName;
use hyphae::value::{FieldPath, Value};

struct StepClock {
    current: u128,
    step: u128,
}

impl MonotonicClock for StepClock {
    fn readings(&self) -> ClockReadings {
        unreachable!()
    }

    fn now(&mut self) -> u128 {
        let current = self.current;
        self.current = self.current.saturating_add(self.step);
        current
    }
}

fn clock() -> StepClock {
    StepClock { current: 0, step: 1 }
}

fn object(fields: Vec<(&str, Value)>) -> Value {
    let mut entries: Vec<(String, Value)> =
        fields.into_iter().map(|(k, v)| (k.to_owned(), v)).collect();
    entries.sort_by(|a, b| a.0.cmp(&b.0));
    Value::Object(entries)
}

fn record(key: &[u8], title: &str, body: &str) -> Record {
    Record::new(
        key.to_vec(),
        object(vec![
            ("title", Value::String(title.to_owned())),
            ("body", Value::String(body.to_owned())),
        ]),
    )
}

fn definition() -> LexicalIndexDefinition {
    LexicalIndexDefinition::new(
        VectorSpaceName::new("articles").unwrap(),
        vec![
            LexicalField { path: FieldPath::field("title"), weight_micros: 2_000_000 },
            LexicalField { path: FieldPath::field("body"), weight_micros: 1_000_000 },
        ],
    )
    .unwrap()
}

fn tokens(words: &[&str]) -> Vec<String> {
    words.iter().map(|w| w.to_string()).collect()
}

fn scored(key: &[u8], score_nanos: i64) -> LexicalMatch {
    LexicalMatch { key: key.to_vec(), score_nanos, terms: Vec::new() }
}

#[test]
fn query_tokens_are_distinct_and_ordered() {
    assert_eq!(query_tokens_v1("World hello WORLD").unwrap(), tokens(&["hello", "world"]));
    assert_eq!(query_tokens_v1("  -- ").unwrap_err(), LexicalError::EmptyQuery);
}

#[test]
fn execution_requests_are_checked_in_order() {
    let definition = definition();
    let limits = LexicalLimits::default();
    let ok = LexicalRequest {
        index: VectorSpaceName::new("articles").unwrap(),
        query: "x".to_owned(),
        limit: 3,
    };
    assert!(validate_execution(&definition, &ok, &limits).is_ok());
    let mut other = ok.clone();
    other.index = VectorSpaceName::new("other").unwrap();
    other.limit = 0;
    assert_eq!(validate_execution(&definition, &other, &limits), Err(LexicalError::IndexMismatch));
    let mut zero = ok.clone();
    zero.limit = 0;
    assert_eq!(validate_execution(&definition, &zero, &limits), Err(LexicalError::ZeroLimit));
    let mut large = ok;
    large.limit = limits.max_returned + 1;
    assert_eq!(
        validate_execution(&definition, &large, &limits),
        Err(LexicalError::ResultLimitExceeded { requested: limits.max_returned + 1, maximum: limits.max_returned })
    );
}

#[test]
fn repeated_keys_are_flagged_after_their_first_occurrence() {
    let keys: Vec<&[u8]> = vec![b"a", b"b", b"a", b"c", b"b", b"a"];
    assert_eq!(earlier_repeats(&keys), vec![false, false, true, false, true, true]);
}

#[test]
fn analysis_counts_field_tokens() {
    let definition = definition();
    let records = vec![
        record(b"doc-1", "Hello World", "hello again"),
        record(b"doc-2", "Other", "nothing here at all"),
    ];
    let query = tokens(&["hello"]);
    let corpus = analyze_records(&records, &definition, &query, &LexicalLimits::default(), &mut clock(), u128::MAX)
        .unwrap();
    assert_eq!(corpus.documents.len(), 2);
    assert_eq!(corpus.documents[0].key, b"doc-1".to_vec());
    // Definition fields are sorted by path: body before title.
    assert_eq!(corpus.documents[0].fields, vec![tokens(&["hello", "again"]), tokens(&["hello", "world"])]);
    assert_eq!(corpus.total_lengths, vec![6, 3]);
}

#[test]
fn analysis_failures_follow_the_record_checks() {
    let definition = definition();
    let query = tokens(&["hello"]);
    let limits = LexicalLimits::default();
    let duplicate = vec![record(b"k", "a", "b"), record(b"k", "c", "d")];
    assert_eq!(
        analyze_records(&duplicate, &definition, &query, &limits, &mut clock(), u128::MAX).unwrap_err(),
        LexicalError::DuplicateDocumentKey
    );
    let empty = vec![record(b"", "a", "b")];
    assert_eq!(
        analyze_records(&empty, &definition, &query, &limits, &mut clock(), u128::MAX).unwrap_err(),
        LexicalError::EmptyDocumentKey
    );
    let mut few = limits.clone();
    few.max_documents = 1;
    let two = vec![record(b"a", "x", "y"), record(b"b", "x", "y")];
    assert_eq!(
        analyze_records(&two, &definition, &query, &few, &mut clock(), u128::MAX).unwrap_err(),
        LexicalError::DocumentBudgetExceeded { maximum: 1 }
    );
    let mut tight = limits.clone();
    tight.max_tokens = 3;
    assert_eq!(
        analyze_records(&two, &definition, &query, &tight, &mut clock(), u128::MAX).unwrap_err(),
        LexicalError::TokenBudgetExceeded { maximum: 3 }
    );
    assert_eq!(
        analyze_records(&two, &definition, &query, &limits, &mut clock(), 0).unwrap_err(),
        LexicalError::TimedOut
    );
}

#[test]
fn ranking_orders_by_score_then_key_and_cuts_to_limit() {
    let matches = vec![scored(b"b", 5), scored(b"c", 9), scored(b"a", 5), scored(b"d", 1)];
    match finish_ranking(matches, 10, tokens(&["q"]), 3) {
        LexicalOutcome::Matches { matches, scanned_documents, matched_documents, query_tokens } => {
            let keys: Vec<Vec<u8>> = matches.iter().map(|m| m.key.clone()).collect();
            assert_eq!(keys, vec![b"c".to_vec(), b"a".to_vec(), b"b".to_vec()]);
            assert_eq!(scanned_documents, 10);
            assert_eq!(matched_documents, 4);
            assert_eq!(query_tokens, tokens(&["q"]));
        }
        other => panic!("unexpected outcome {other:?}"),
    }
}

#[test]
fn ranking_without_matches_abstains() {
    match finish_ranking(Vec::new(), 7, tokens(&["q"]), 3) {
        LexicalOutcome::Abstained(a) => {
            assert_eq!(a.reason, LexicalAbstentionReason::NoCandidates);
            assert_eq!(a.scanned_documents, 7);
        }
        other => panic!("unexpected outcome {other:?}"),
    }
}

fn materialized(key: &[u8], entries: Vec<(&str, Vec<u64>)>) -> LexicalMaterializedDocument {
    LexicalMaterializedDocument {
        key: key.to_vec(),
        field_lengths: vec![3, 2],
        term_frequencies: entries.into_iter().map(|(t, f)| (t.to_owned(), f)).collect(),
    }
}

fn projection(documents: Vec<LexicalMaterializedDocument>) -> LexicalMaterializedCorpus {
    LexicalMaterializedCorpus {
        document_count: 4,
        token_count: 20,
        total_field_lengths: vec![12, 8],
        documents,
    }
}

#[test]
fn materialized_projection_is_checked() {
    let definition = definition();
    let query = tokens(&["hello", "world"]);
    let limits = LexicalLimits::default();
    let good = projection(vec![
        materialized(b"a", vec![("world", vec![0, 1]), ("hello", vec![1, 0])]),
        materialized(b"b", vec![("hello", vec![0, 0]), ("world", vec![2, 0])]),
    ]);
    assert_eq!(validate_materialized_corpus(&good, &definition, &query, &limits), Ok(()));

    let missing = projection(vec![materialized(b"a", vec![("hello", vec![1, 0]), ("other", vec![1, 0])])]);
    assert_eq!(
        validate_materialized_corpus(&missing, &definition, &query, &limits),
        Err(LexicalError::MalformedProjection)
    );
    let short = projection(vec![materialized(b"a", vec![("hello", vec![1]), ("world", vec![1, 0])])]);
    assert_eq!(
        validate_materialized_corpus(&short, &definition, &query, &limits),
        Err(LexicalError::MalformedProjection)
    );
    let duplicate = projection(vec![
        materialized(b"a", vec![("hello", vec![1, 0]), ("world", vec![1, 0])]),
        materialized(b"a", vec![("hello", vec![1, 0]), ("world", vec![1, 0])]),
    ]);
    assert_eq!(
        validate_materialized_corpus(&duplicate, &definition, &query, &limits),
        Err(LexicalError::DuplicateDocumentKey)
    );
    let empty_key = projection(vec![materialized(b"", vec![])]);
    assert_eq!(
        validate_materialized_corpus(&empty_key, &definition, &query, &limits),
        Err(LexicalError::EmptyDocumentKey)
    );
    let mut totals = projection(Vec::new());
    totals.total_field_lengths = vec![1];
    assert_eq!(
        validate_materialized_corpus(&totals, &definition, &query, &limits),
        Err(LexicalError::MalformedProjection)
    );
    let mut tight = limits;
    tight.max_tokens = 21;
    assert_eq!(
        validate_materialized_corpus(&projection(Vec::new()), &definition, &query, &tight),
        Err(LexicalError::TokenBudgetExceeded { maximum: 21 })
    );
    let mut few = limits;
    few.max_documents = 3;
    assert_eq!(
        validate_materialized_corpus(&projection(Vec::new()), &definition, &query, &few),
        Err(LexicalError::DocumentBudgetExceeded { maximum: 3 })
    );
    let mut one = limits;
    one.max_candidates = 1;
    assert_eq!(
        validate_materialized_corpus(&good, &definition, &query, &one),
        Err(LexicalError::CandidateBudgetExceeded { maximum: 1 })
    );
}

#[test]
fn term_statistics_count_exact_tokens() {
    let field = tokens(&["a", "b", "a", "ab"]);
    assert_eq!(term_frequency(&field, &"a".to_owned()), 2);
    assert_eq!(term_frequency(&field, &"c".to_owned()), 0);
    let document = AnalyzedDocument { key: b"k".to_vec(), fields: vec![Vec::new(), field] };
    assert!(document_has_token(&document, &"ab".to_owned()));
    assert!(!document_has_token(&document, &"z".to_owned()));
}

#[test]
fn document_frequency_counts_documents_not_occurrences() {
    let a = AnalyzedDocument { key: b"a".to_vec(), fields: vec![tokens(&["x", "x"]), tokens(&["y"])] };
    let b = AnalyzedDocument { key: b"b".to_vec(), fields: vec![tokens(&["z"]), tokens(&["x"])] };
    let c = AnalyzedDocument { key: b"c".to_vec(), fields: vec![Vec::new(), tokens(&["y"])] };
    let corpus = AnalyzedCorpus { documents: vec![a, b, c], total_lengths: vec![3, 3] };
    assert_eq!(document_frequency(&corpus, &"x".to_owned()), 2);
    assert_eq!(document_frequency(&corpus, &"y".to_owned()), 2);
    assert_eq!(document_frequency(&corpus, &"q".to_owned()), 0);
}

#[test]
fn materialized_entries_listing_a_token_twice_are_malformed() {
    let definition = definition();
    let query = tokens(&["hello", "world"]);
    let twice = projection(vec![materialized(b"a", vec![("hello", vec![1, 0]), ("hello", vec![1, 0])])]);
    assert_eq!(
        validate_materialized_corpus(&twice, &definition, &query, &LexicalLimits::default()),
        Err(LexicalError::MalformedProjection)
    );
}
