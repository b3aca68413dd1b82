use hyphae::document::{
    decode_document, encode_document, encode_envelope, DocumentError, DOCUMENT_FORMAT_VERSION,
    MAX_DOCUMENT_DEPTH,
};
use hyphae::value::Value;

#[test]
fn canonical_document_round_trips_binary_and_nested_values() -> Result<(), DocumentError> {
    let value = Value::Object(vec![
        ("bytes".to_owned(), Value::Bytes(vec![0, 255, 7])),
        (
            "nested".to_owned(),
            Value::Array(vec![Value::Integer(-7), Value::Null]),
        ),
    ]);
    let first = encode_document(&value)?;
    let second = encode_document(&value)?;
    assert_eq!(first, second);
    assert_eq!(decode_document(&first)?, value);
    Ok(())
}

#[test]
fn corruption_and_future_versions_fail_before_decoding() -> Result<(), DocumentError> {
    let mut corrupted = encode_document(&Value::Integer(7))?;
    let last = corrupted.len() - 1;
    corrupted[last] ^= 1;
    assert_eq!(
        decode_document(&corrupted),
        Err(DocumentError::ChecksumMismatch)
    );

    let mut future = encode_document(&Value::Null)?;
    future[8..10].copy_from_slice(&(DOCUMENT_FORMAT_VERSION + 1).to_le_bytes());
    assert_eq!(
        decode_document(&future),
        Err(DocumentError::UnsupportedVersion {
            found: DOCUMENT_FORMAT_VERSION + 1,
            supported: DOCUMENT_FORMAT_VERSION
        })
    );
    Ok(())
}

#[test]
fn depth_is_bounded_during_encoding() {
    let mut value = Value::Null;
    for _ in 0..=MAX_DOCUMENT_DEPTH {
        value = Value::Array(vec![value]);
    }
    assert_eq!(
        encode_document(&value),
        Err(DocumentError::TooDeep {
            maximum: MAX_DOCUMENT_DEPTH
        })
    );
}

#[test]
fn decoder_rejects_noncanonical_object_key_order() -> Result<(), DocumentError> {
    let mut payload = vec![7u8];
    payload.extend_from_slice(&2_u64.to_le_bytes());
    payload.extend_from_slice(&1_u64.to_le_bytes());
    payload.extend_from_slice(b"b");
    payload.push(0);
    payload.extend_from_slice(&1_u64.to_le_bytes());
    payload.extend_from_slice(b"a");
    payload.push(0);
    let encoded = encode_envelope(&payload)?;
    assert_eq!(
        decode_document(&encoded),
        Err(DocumentError::Invalid {
            reason: "object keys are not strictly sorted"
        })
    );
    Ok(())
}

#[test]
fn document_header_and_payload_errors() -> Result<(), DocumentError> {
    assert_eq!(
        decode_document(&[0u8; 10]),
        Err(DocumentError::Invalid {
            reason: "truncated header"
        })
    );
    let mut bad_magic = encode_document(&Value::Null)?;
    bad_magic[0] = b'X';
    assert_eq!(
        decode_document(&bad_magic),
        Err(DocumentError::Invalid { reason: "bad magic" })
    );
    let mut flipped_digest = encode_document(&Value::Boolean(true))?;
    flipped_digest[30] ^= 1;
    assert_eq!(
        decode_document(&flipped_digest),
        Err(DocumentError::DigestMismatch)
    );
    let trailing = encode_envelope(&[0u8, 0u8])?;
    assert_eq!(
        decode_document(&trailing),
        Err(DocumentError::Invalid {
            reason: "trailing payload bytes"
        })
    );
    let unknown = encode_envelope(&[9u8])?;
    assert_eq!(
        decode_document(&unknown),
        Err(DocumentError::Invalid {
            reason: "unknown value tag"
        })
    );
    let mut bad_utf8 = vec![4u8];
    bad_utf8.extend_from_slice(&1_u64.to_le_bytes());
    bad_utf8.push(0xff);
    assert_eq!(
        decode_document(&encode_envelope(&bad_utf8)?),
        Err(DocumentError::InvalidUtf8)
    );
    let strings = Value::Array(vec![Value::String("héllo".into()), Value::Boolean(false)]);
    assert_eq!(decode_document(&encode_document(&strings)?)?, strings);
    let encoded = encode_document(&Value::Integer(i64::MIN))?;
    assert_eq!(encoded.len(), 56 + 9);
    assert_eq!(decode_document(&encoded)?, Value::Integer(i64::MIN));
    Ok(())
}

#[test]
fn objects_with_unordered_or_repeated_keys_are_refused() {
    let unordered = Value::Object(vec![("b".to_string(), Value::Null), ("a".to_string(), Value::Null)]);
    assert_eq!(
        encode_document(&unordered),
        Err(DocumentError::Invalid { reason: "object keys are not strictly increasing" })
    );
    let repeated = Value::Array(vec![Value::Object(vec![
        ("a".to_string(), Value::Null),
        ("a".to_string(), Value::Integer(1)),
    ])]);
    assert_eq!(
        encode_document(&repeated),
        Err(DocumentError::Invalid { reason: "object keys are not strictly increasing" })
    );
}
