use hyphae::value::{compare_values, Comparison, FieldPath, Value};

fn object(fields: Vec<(&str, Value)>) -> Value {
    Value::Object(fields.into_iter().map(|(k, v)| (k.to_owned(), v)).collect())
}

#[test]
fn variant_order_is_the_normative_total_order() {
    let values = [
        Value::Null,
        Value::Boolean(false),
        Value::Integer(-1),
        Value::String(String::new()),
        Value::Bytes(Vec::new()),
        Value::Array(Vec::new()),
        Value::Object(Vec::new()),
    ];
    assert!(values
        .windows(2)
        .all(|pair| compare_values(&pair[0], &pair[1]) == Comparison::Less));
}

#[test]
fn field_path_distinguishes_missing_from_explicit_null() {
    let root = object(vec![
        ("nested", object(vec![("value", Value::Null)])),
        ("scalar", Value::Integer(7)),
    ]);
    assert_eq!(
        FieldPath::new(vec!["nested".to_owned(), "value".to_owned()]).resolve(&root),
        Some(&Value::Null)
    );
    assert_eq!(
        FieldPath::new(vec!["nested".to_owned(), "missing".to_owned()]).resolve(&root),
        None
    );
    assert_eq!(
        FieldPath::new(vec!["scalar".to_owned(), "child".to_owned()]).resolve(&root),
        None
    );
    assert_eq!(FieldPath::default().resolve(&root), Some(&root));
}

#[test]
fn value_order_within_variants() {
    assert_eq!(
        compare_values(&Value::Integer(-5), &Value::Integer(3)),
        Comparison::Less
    );
    assert_eq!(
        compare_values(&Value::String("b".into()), &Value::String("ab".into())),
        Comparison::Greater
    );
    assert_eq!(
        compare_values(&Value::Bytes(vec![1, 2]), &Value::Bytes(vec![1, 2])),
        Comparison::Equal
    );
    assert_eq!(
        compare_values(
            &Value::Array(vec![Value::Integer(1)]),
            &Value::Array(vec![Value::Integer(1), Value::Null])
        ),
        Comparison::Less
    );
    assert_eq!(
        compare_values(&Value::Boolean(true), &Value::Boolean(false)),
        Comparison::Greater
    );
}

#[test]
fn field_path_accessors() {
    let path = FieldPath::field("score");
    assert_eq!(path.segments(), &["score".to_owned()][..]);
    let root = object(vec![("score", Value::Integer(3))]);
    assert_eq!(path.resolve(&root), Some(&Value::Integer(3)));
    assert_eq!(path.resolve(&Value::Integer(3)), None);
}
