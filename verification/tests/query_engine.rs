use hyphae::query::ClockReadings;
use hyphae::engine::{execute, execute_with_clock};
use hyphae::query::validate_query;
use hyphae::query::{
    AggregationPlan, CompareOperator, Cursor, ExecutionLimits, Filter, Metric, MetricValue,
    MonotonicClock, NamedMetric, NullPlacement, Query, QueryError, Record, SortDirection,
    SortField,
};
use hyphae::value::{FieldPath, Value};

fn object(fields: Vec<(&str, Value)>) -> Value {
    let mut entries: Vec<(String, Value)> =
        fields.into_iter().map(|(k, v)| (k.to_owned(), v)).collect();
    entries.sort_by(|a, b| a.0.cmp(&b.0));
    Value::Object(entries)
}

fn record(key: &[u8], score: i64, group: &str) -> Record {
    Record::new(
        key.to_vec(),
        object(vec![
            ("score", Value::Integer(score)),
            ("group", Value::String(group.to_owned())),
        ]),
    )
}

fn score_descending() -> SortField {
    SortField {
        path: FieldPath::field("score"),
        direction: SortDirection::Descending,
        nulls: NullPlacement::Last,
    }
}

fn query(limit: usize) -> Query {
    Query {
        filter: Filter::MatchAll,
        sort: vec![score_descending()],
        cursor: None,
        limit,
        aggregation: None,
    }
}

fn keys(rows: &[Record]) -> Vec<&[u8]> {
    rows.iter().map(|record| record.key.as_slice()).collect()
}

#[test]
fn global_merge_precedes_limit_and_cursor_is_stable() -> Result<(), QueryError> {
    let first = vec![record(b"a", 10, "x"), record(b"d", 1, "x")];
    let second = vec![record(b"b", 9, "y"), record(b"c", 8, "y"), record(b"e", 8, "z")];
    let shards = [first.as_slice(), second.as_slice()];
    let first_page = execute(&shards, &query(3), &ExecutionLimits::default())?;
    assert_eq!(
        keys(&first_page.rows),
        [b"a".as_slice(), b"b".as_slice(), b"c".as_slice()]
    );

    let second_page = execute(
        &shards,
        &Query {
            cursor: first_page.next_cursor,
            ..query(3)
        },
        &ExecutionLimits::default(),
    )?;
    assert_eq!(keys(&second_page.rows), [b"e".as_slice(), b"d".as_slice()]);
    assert_eq!(second_page.next_cursor, None);
    Ok(())
}

#[test]
fn filters_and_grouped_aggregates_use_the_full_match_set() -> Result<(), QueryError> {
    let records = vec![
        record(b"a", 10, "x"),
        record(b"b", 8, "x"),
        record(b"c", 7, "y"),
        record(b"d", 2, "y"),
    ];
    let result = execute(
        &[records.as_slice()],
        &Query {
            filter: Filter::Compare {
                path: FieldPath::field("score"),
                operator: CompareOperator::GreaterOrEqual,
                value: Value::Integer(7),
            },
            sort: vec![score_descending()],
            cursor: None,
            limit: 1,
            aggregation: Some(AggregationPlan {
                group_by: vec![FieldPath::field("group")],
                metrics: vec![
                    NamedMetric {
                        name: "count".to_owned(),
                        metric: Metric::Count,
                    },
                    NamedMetric {
                        name: "sum".to_owned(),
                        metric: Metric::Sum(FieldPath::field("score")),
                    },
                ],
            }),
        },
        &ExecutionLimits::default(),
    )?;
    assert_eq!(result.rows.len(), 1);
    assert_eq!(result.matched_records, 3);
    let aggregation = result.aggregation.ok_or(QueryError::TimedOut)?;
    assert_eq!(aggregation.groups.len(), 2);
    assert_eq!(aggregation.groups[0].metrics[0].value, MetricValue::Count(2));
    assert_eq!(
        aggregation.groups[0].metrics[1].value,
        MetricValue::Integer(Some(18))
    );
    assert_eq!(aggregation.groups[1].metrics[0].value, MetricValue::Count(1));
    assert_eq!(
        aggregation.groups[1].metrics[1].value,
        MetricValue::Integer(Some(7))
    );
    Ok(())
}

#[test]
fn missing_and_null_have_explicit_filter_and_sort_semantics() -> Result<(), QueryError> {
    let records = vec![
        Record::new(b"missing".to_vec(), object(vec![])),
        Record::new(b"null".to_vec(), object(vec![("value", Value::Null)])),
        Record::new(b"integer".to_vec(), object(vec![("value", Value::Integer(1))])),
    ];
    let result = execute(
        &[records.as_slice()],
        &Query {
            filter: Filter::Not(Box::new(Filter::Compare {
                path: FieldPath::field("value"),
                operator: CompareOperator::Equal,
                value: Value::Integer(1),
            })),
            sort: vec![SortField {
                path: FieldPath::field("value"),
                direction: SortDirection::Ascending,
                nulls: NullPlacement::First,
            }],
            cursor: None,
            limit: 10,
            aggregation: None,
        },
        &ExecutionLimits::default(),
    )?;
    assert_eq!(
        keys(&result.rows),
        [b"missing".as_slice(), b"null".as_slice()]
    );
    Ok(())
}

#[test]
fn global_work_budgets_fail_without_partial_results() {
    let records = vec![record(b"a", 1, "x"), record(b"b", 2, "x")];
    let limits = ExecutionLimits {
        max_scanned_records: 1,
        ..ExecutionLimits::default()
    };
    assert_eq!(
        execute(&[records.as_slice()], &query(1), &limits).err(),
        Some(QueryError::ScannedBudgetExceeded { maximum: 1 })
    );
}

#[test]
fn matched_and_group_budgets_are_global() {
    let records = vec![record(b"a", 1, "x"), record(b"b", 2, "y")];
    let matched_limits = ExecutionLimits {
        max_matched_records: 1,
        ..ExecutionLimits::default()
    };
    assert_eq!(
        execute(&[records.as_slice()], &query(1), &matched_limits).err(),
        Some(QueryError::MatchedBudgetExceeded { maximum: 1 })
    );

    let group_limits = ExecutionLimits {
        max_groups: 1,
        ..ExecutionLimits::default()
    };
    let grouped = Query {
        aggregation: Some(AggregationPlan {
            group_by: vec![FieldPath::field("group")],
            metrics: vec![NamedMetric {
                name: "count".to_owned(),
                metric: Metric::Count,
            }],
        }),
        ..query(1)
    };
    assert_eq!(
        execute(&[records.as_slice()], &grouped, &group_limits).err(),
        Some(QueryError::GroupBudgetExceeded { maximum: 1 })
    );
}

#[test]
fn shape_and_cursor_validation_happen_before_execution() {
    let records = vec![record(b"a", 1, "x")];
    let filter_limits = ExecutionLimits {
        max_filter_nodes: 1,
        ..ExecutionLimits::default()
    };
    let nested = Query {
        filter: Filter::Not(Box::new(Filter::MatchAll)),
        ..query(1)
    };
    assert_eq!(
        execute(&[records.as_slice()], &nested, &filter_limits).err(),
        Some(QueryError::FilterNodesExceeded {
            actual: 2,
            maximum: 1
        })
    );

    let malformed_cursor = Query {
        cursor: Some(Cursor {
            sort_values: Vec::new(),
            key: b"a".to_vec(),
        }),
        ..query(1)
    };
    assert_eq!(
        execute(
            &[records.as_slice()],
            &malformed_cursor,
            &ExecutionLimits::default()
        )
        .err(),
        Some(QueryError::CursorShape {
            actual: 0,
            expected: 1
        })
    );
}

#[test]
fn grouped_missing_and_null_are_distinct() -> Result<(), QueryError> {
    let records = vec![
        Record::new(b"missing".to_vec(), object(vec![])),
        Record::new(b"null".to_vec(), object(vec![("value", Value::Null)])),
    ];
    let result = execute(
        &[records.as_slice()],
        &Query {
            aggregation: Some(AggregationPlan {
                group_by: vec![FieldPath::field("value")],
                metrics: vec![NamedMetric {
                    name: "count".to_owned(),
                    metric: Metric::Count,
                }],
            }),
            ..query(10)
        },
        &ExecutionLimits::default(),
    )?;
    let aggregation = result.aggregation.ok_or(QueryError::MetricStateMismatch)?;
    assert_eq!(aggregation.groups[0].key, [None]);
    assert_eq!(aggregation.groups[1].key, [Some(Value::Null)]);
    Ok(())
}

#[test]
fn sum_rejects_non_integer_values() {
    let records = vec![Record::new(
        b"bad".to_vec(),
        object(vec![("score", Value::String("not-an-integer".to_owned()))]),
    )];
    let request = Query {
        aggregation: Some(AggregationPlan {
            group_by: Vec::new(),
            metrics: vec![NamedMetric {
                name: "sum".to_owned(),
                metric: Metric::Sum(FieldPath::field("score")),
            }],
        }),
        ..query(1)
    };
    assert_eq!(
        execute(&[records.as_slice()], &request, &ExecutionLimits::default()).err(),
        Some(QueryError::MetricTypeMismatch {
            name: "sum".to_owned()
        })
    );
}

#[test]
fn duplicate_keys_across_shards_are_rejected() {
    let first = vec![record(b"same", 1, "x")];
    let second = vec![record(b"same", 2, "y")];
    assert_eq!(
        execute(
            &[first.as_slice(), second.as_slice()],
            &query(1),
            &ExecutionLimits::default()
        )
        .err(),
        Some(QueryError::DuplicateRecordKey)
    );
}

struct StepClock {
    current: u128,
    step: u128,
}

impl MonotonicClock for StepClock {
    fn readings(&self) -> ClockReadings {
        unreachable!()
    }

    fn now(&mut self) -> u128 {
        let current = self.current;
        self.current = self.current.saturating_add(self.step);
        current
    }
}

#[test]
fn timeout_uses_an_injectable_monotonic_clock() {
    let records = vec![record(b"a", 1, "x"), record(b"b", 2, "x")];
    let limits = ExecutionLimits {
        timeout_nanos: 3_000_000,
        ..ExecutionLimits::default()
    };
    let mut clock = StepClock {
        current: 0,
        step: 1_000_000,
    };
    assert_eq!(
        execute_with_clock(&[records.as_slice()], &query(1), &limits, &mut clock).err(),
        Some(QueryError::TimedOut)
    );
}

#[test]
fn empty_keys_and_zero_limits_are_rejected() {
    let records = vec![record(b"", 1, "x")];
    assert_eq!(
        execute(&[records.as_slice()], &query(1), &ExecutionLimits::default()).err(),
        Some(QueryError::EmptyRecordKey)
    );
    assert_eq!(
        execute(&[records.as_slice()], &query(0), &ExecutionLimits::default()).err(),
        Some(QueryError::ZeroLimit)
    );
}

#[test]
fn global_min_max_and_counters() -> Result<(), QueryError> {
    let records = vec![
        record(b"a", 5, "x"),
        record(b"b", -3, "y"),
        Record::new(b"c".to_vec(), object(vec![("score", Value::Null)])),
    ];
    let result = execute(
        &[records.as_slice()],
        &Query {
            aggregation: Some(AggregationPlan {
                group_by: Vec::new(),
                metrics: vec![
                    NamedMetric {
                        name: "min".to_owned(),
                        metric: Metric::Min(FieldPath::field("score")),
                    },
                    NamedMetric {
                        name: "max".to_owned(),
                        metric: Metric::Max(FieldPath::field("score")),
                    },
                    NamedMetric {
                        name: "sum".to_owned(),
                        metric: Metric::Sum(FieldPath::field("score")),
                    },
                ],
            }),
            ..query(2)
        },
        &ExecutionLimits::default(),
    )?;
    assert_eq!(result.scanned_records, 3);
    assert_eq!(result.matched_records, 3);
    assert_eq!(keys(&result.rows), [b"a".as_slice(), b"b".as_slice()]);
    assert!(result.next_cursor.is_some());
    let aggregation = result.aggregation.unwrap();
    assert!(!aggregation.grouped);
    assert_eq!(aggregation.groups.len(), 1);
    assert!(aggregation.groups[0].key.is_empty());
    assert_eq!(
        aggregation.groups[0].metrics[0].value,
        MetricValue::Value(Some(Value::Integer(-3)))
    );
    assert_eq!(
        aggregation.groups[0].metrics[1].value,
        MetricValue::Value(Some(Value::Integer(5)))
    );
    assert_eq!(
        aggregation.groups[0].metrics[2].value,
        MetricValue::Integer(Some(2))
    );
    assert_eq!(aggregation.groups[0].metrics[2].name, "sum");
    Ok(())
}

#[test]
fn ungrouped_plan_needs_one_group_of_budget() {
    let records = vec![record(b"a", 1, "x")];
    let limits = ExecutionLimits {
        max_groups: 0,
        ..ExecutionLimits::default()
    };
    let request = Query {
        aggregation: Some(AggregationPlan {
            group_by: Vec::new(),
            metrics: vec![NamedMetric {
                name: "count".to_owned(),
                metric: Metric::Count,
            }],
        }),
        ..query(1)
    };
    assert_eq!(
        execute(&[records.as_slice()], &request, &limits).err(),
        Some(QueryError::GroupBudgetExceeded { maximum: 0 })
    );
}

#[test]
fn filter_depth_budget_is_enforced_before_execution() {
    let depth_limits = ExecutionLimits {
        max_filter_depth: 1,
        ..ExecutionLimits::default()
    };
    let nested = Query {
        filter: Filter::Not(Box::new(Filter::MatchAll)),
        ..query(1)
    };
    assert_eq!(
        validate_query(&nested, &depth_limits),
        Err(QueryError::FilterDepthExceeded { maximum: 1 })
    );
    let flat = Query {
        filter: Filter::All(vec![Filter::MatchAll, Filter::MatchAll]),
        ..query(1)
    };
    let two = ExecutionLimits {
        max_filter_depth: 2,
        ..ExecutionLimits::default()
    };
    assert_eq!(validate_query(&flat, &two), Ok(()));
    assert_eq!(
        validate_query(&flat, &depth_limits),
        Err(QueryError::FilterDepthExceeded { maximum: 1 })
    );
}
