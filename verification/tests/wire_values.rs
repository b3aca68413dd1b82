use hyphae::query::{
    AggregationResult, Cursor, Filter, GroupResult, MetricValue, NamedMetricValue, QueryResult, Record,
};
use hyphae::value::Value;
use hyphae::wire::{ProofV1, WireValueError, WitnessV1, BYTES_HEX_KEY};
use hyphae::wire_values::{
    filter_to_domain, i128_decimal, value_from_domain, value_to_domain, CursorV1, FilterV1, GroupKeyValueV1, JsonValue,
    MetricValueV1, QueryRequestV1, QueryResponseV1, RecordV1,
};

#[test]
fn natural_json_value_round_trips_domain_values() -> Result<(), WireValueError> {
    let value = Value::Object(vec![
        ("bytes".to_owned(), Value::Bytes(vec![0, 255])),
        ("number".to_owned(), Value::Integer(-7)),
    ]);
    assert_eq!(value_to_domain(&value_from_domain(&value))?, value);
    let envelope = JsonValue::Object(vec![(BYTES_HEX_KEY.to_owned(), JsonValue::String("00ff".to_owned()))]);
    assert_eq!(value_to_domain(&envelope)?, Value::Bytes(vec![0, 255]));
    Ok(())
}

#[test]
fn wire_query_rejects_noninteger_numbers_and_empty_paths() {
    assert_eq!(value_to_domain(&JsonValue::OtherNumber), Err(WireValueError::NonIntegerNumber));
    let request = QueryRequestV1 {
        filter: FilterV1::Exists { path: vec![String::new()] },
        sort: Vec::new(),
        cursor: None,
        limit: 1,
        aggregation: None,
        timeout_ms: None,
    };
    assert_eq!(request.to_domain().err(), Some(WireValueError::EmptyPathSegment));
    assert!(!matches!(Filter::Any(Vec::new()), Filter::MatchAll));
}

#[test]
fn bytes_envelopes_and_nested_failures_are_reported() {
    let bad_hex = JsonValue::Object(vec![(BYTES_HEX_KEY.to_owned(), JsonValue::String("0g".to_owned()))]);
    assert_eq!(value_to_domain(&bad_hex), Err(WireValueError::InvalidBytesHex));
    let not_envelope = JsonValue::Object(vec![(BYTES_HEX_KEY.to_owned(), JsonValue::Integer(3))]);
    assert_eq!(
        value_to_domain(&not_envelope),
        Ok(Value::Object(vec![(BYTES_HEX_KEY.to_owned(), Value::Integer(3))]))
    );
    let nested = JsonValue::Array(vec![JsonValue::Bool(true), JsonValue::OtherNumber]);
    assert_eq!(value_to_domain(&nested), Err(WireValueError::NonIntegerNumber));
    let filter = FilterV1::All {
        filters: vec![
            FilterV1::MatchAll,
            FilterV1::Compare {
                path: vec!["a".to_owned()],
                operator: hyphae::wire::CompareOperatorV1::Equal,
                value: JsonValue::OtherNumber,
            },
        ],
    };
    assert_eq!(filter_to_domain(&filter).err(), Some(WireValueError::NonIntegerNumber));
}

#[test]
fn cursors_and_records_convert_keys() {
    let cursor = CursorV1 { sort_values: vec![None, Some(JsonValue::Integer(4))], key_hex: "0aFF".to_owned() };
    let request = QueryRequestV1 {
        filter: FilterV1::MatchAll,
        sort: Vec::new(),
        cursor: Some(cursor),
        limit: 5,
        aggregation: None,
        timeout_ms: Some(10),
    };
    let query = request.to_domain().unwrap();
    let converted = query.cursor.unwrap();
    assert_eq!(converted.key, vec![0x0a, 0xff]);
    assert_eq!(converted.sort_values, vec![None, Some(Value::Integer(4))]);
    assert_eq!(query.limit, 5);
    let record = RecordV1 { key_hex: "".to_owned(), value: JsonValue::Null };
    assert_eq!(record.to_domain().err(), Some(WireValueError::InvalidKeyHex));
    let domain = RecordV1 { key_hex: "6b".to_owned(), value: JsonValue::String("v".to_owned()) }.to_domain().unwrap();
    assert_eq!(domain.key, b"k".to_vec());
    let back = RecordV1::from_domain(&domain);
    assert_eq!(back.key_hex, "6b");
}

#[test]
fn decimal_text_covers_the_i128_range() {
    assert_eq!(i128_decimal(0), "0");
    assert_eq!(i128_decimal(-42), "-42");
    assert_eq!(i128_decimal(1_000_000_007), "1000000007");
    assert_eq!(i128_decimal(i128::MIN), i128::MIN.to_string());
    assert_eq!(i128_decimal(i128::MAX), i128::MAX.to_string());
}

#[test]
fn query_responses_keep_missing_versus_null_and_decimal_sums() {
    let result = QueryResult {
        rows: vec![Record::new(b"k".to_vec(), Value::Bytes(vec![1]))],
        next_cursor: Some(Cursor { sort_values: vec![None], key: vec![0xab] }),
        aggregation: Some(AggregationResult {
            grouped: true,
            groups: vec![GroupResult {
                key: vec![None, Some(Value::Null)],
                metrics: vec![NamedMetricValue { name: "total".to_owned(), value: MetricValue::Integer(Some(-5)) }],
            }],
        }),
        scanned_records: 3,
        matched_records: 1,
    };
    let proof = ProofV1 {
        encoding: "base64".to_owned(),
        data: String::new(),
        proof_digest: String::new(),
        anchor_digest: String::new(),
        checkpoint_sequence: 0,
        checkpoint_digest: None,
        snapshot_digest: String::new(),
        witness: WitnessV1 { path: String::new(), file_bytes: 0 },
    };
    let response = QueryResponseV1::from_domain(&result, proof);
    assert_eq!(response.rows[0].key_hex, "6b");
    assert_eq!(response.next_cursor.as_ref().unwrap().key_hex, "ab");
    let group = &response.aggregation.as_ref().unwrap().groups[0];
    assert!(matches!(group.key[0], GroupKeyValueV1::Missing));
    assert!(matches!(group.key[1], GroupKeyValueV1::Value { value: JsonValue::Null }));
    match &group.metrics[0].result {
        MetricValueV1::Integer { value } => assert_eq!(value.as_deref(), Some("-5")),
        other => panic!("unexpected metric {other:?}"),
    }
    assert_eq!((response.scanned_records, response.matched_records), (3, 1));
}
