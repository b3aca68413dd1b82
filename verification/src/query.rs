//! Deterministic typed query model, validation, and filter semantics.
use vstd::prelude::*;
use vstd::string::StringSliceAdditionalSpecFns;
use vstd::utf8::encode_utf8;

use crate::shared::bytes_equal;
use crate::value::{
    compare_values, copy_bytes, lemma_models_of, model_of, model_order, models_of, resolve_model,
    values_equal, variant_rank, lemma_model_order_antisym, lemma_model_order_trans, Comparison, FieldPath, Value,
    ValueModel,
};

verus! {

/// One logical record supplied to the reference query executor.
#[derive(Debug)]
pub struct Record {
    /// Globally unique nonempty binary key.
    pub key: Vec<u8>,
    /// Structured record value.
    pub value: Value,
}

impl Record {
    /// Creates a logical record. Key validity is checked by execution so a
    /// complete shard batch can be rejected consistently.
    pub fn new(key: Vec<u8>, value: Value) -> (r: Record)
        ensures
            r.key@ == key@,
            model_of(r.value) == model_of(value),
    {
        Record { key, value }
    }

    /// A deep copy of this record.
    pub fn duplicate(&self) -> (r: Record)
        ensures
            r.key@ == self.key@,
            model_of(r.value) == model_of(self.value),
    {
        Record { key: copy_bytes(self.key.as_slice()), value: self.value.duplicate() }
    }
}

impl Clone for Record {
    fn clone(&self) -> (r: Self)
        ensures
            r.key@ == self.key@,
            model_of(r.value) == model_of(self.value),
    {
        self.duplicate()
    }
}

/// Ordered comparison operator for one resolved field.
#[derive(Clone, Copy, Debug, PartialEq, Eq, Structural)]
pub enum CompareOperator {
    /// Exact type-and-value equality.
    Equal,
    /// Exact inequality; missing still evaluates false.
    NotEqual,
    /// Less than, only between the same value variants.
    Less,
    /// Less than or equal, only between the same value variants.
    LessOrEqual,
    /// Greater than, only between the same value variants.
    Greater,
    /// Greater than or equal, only between the same value variants.
    GreaterOrEqual,
}

/// Deterministic filter expression.
#[derive(Debug)]
pub enum Filter {
    /// Matches every record.
    MatchAll,
    /// Tests whether a path resolves, including to explicit null.
    Exists(FieldPath),
    /// Compares one resolved value against a literal.
    Compare {
        /// Field path.
        path: FieldPath,
        /// Comparison operator.
        operator: CompareOperator,
        /// Literal right-hand value.
        value: Value,
    },
    /// Tests a UTF-8 or binary prefix of the same type.
    Prefix {
        /// Field path.
        path: FieldPath,
        /// String or bytes prefix.
        prefix: Value,
    },
    /// Tests array membership, UTF-8 substring, or byte subsequence.
    Contains {
        /// Field path.
        path: FieldPath,
        /// Exact element or same-type needle.
        needle: Value,
    },
    /// Every child must match; an empty list is true.
    All(Vec<Filter>),
    /// At least one child must match; an empty list is false.
    Any(Vec<Filter>),
    /// Ordinary two-valued negation.
    Not(Box<Filter>),
}

/// Sort direction for one field.
#[derive(Clone, Copy, Debug, PartialEq, Eq, Structural)]
pub enum SortDirection {
    /// Natural ascending value order.
    Ascending,
    /// Reverse value order.
    Descending,
}

/// Explicit placement for missing and null sort values.
#[derive(Clone, Copy, Debug, PartialEq, Eq, Structural)]
pub enum NullPlacement {
    /// Missing and null precede non-null values.
    First,
    /// Missing and null follow non-null values.
    Last,
}

/// One requested sort component.
#[derive(Debug)]
pub struct SortField {
    /// Value path.
    pub path: FieldPath,
    /// Value comparison direction.
    pub direction: SortDirection,
    /// Placement for missing and explicit null.
    pub nulls: NullPlacement,
}

/// Logical continuation position after one emitted record.
#[derive(Debug, PartialEq)]
pub struct Cursor {
    /// One normalized sort value per requested sort field. `None` represents
    /// both missing and explicit null for sorting.
    pub sort_values: Vec<Option<Value>>,
    /// Mandatory final binary-key tie-breaker.
    pub key: Vec<u8>,
}

/// One aggregate calculation.
#[derive(Debug)]
pub enum Metric {
    /// Count every matched record.
    Count,
    /// Checked integer sum, ignoring missing and null.
    Sum(FieldPath),
    /// Minimum non-null resolved value under the total value order.
    Min(FieldPath),
    /// Maximum non-null resolved value under the total value order.
    Max(FieldPath),
}

/// Named aggregate calculation.
#[derive(Debug)]
pub struct NamedMetric {
    /// Unique nonempty result name.
    pub name: String,
    /// Calculation.
    pub metric: Metric,
}

/// Optional global or grouped aggregation plan.
#[derive(Debug)]
pub struct AggregationPlan {
    /// Group-key paths. Empty means one global group.
    pub group_by: Vec<FieldPath>,
    /// Calculations applied to each group.
    pub metrics: Vec<NamedMetric>,
}

/// Complete deterministic query request.
#[derive(Debug)]
pub struct Query {
    /// Filter applied before sorting and aggregation.
    pub filter: Filter,
    /// Requested sort fields; binary key ascending is always appended.
    pub sort: Vec<SortField>,
    /// Optional continuation position.
    pub cursor: Option<Cursor>,
    /// Maximum rows in this page; must be nonzero.
    pub limit: usize,
    /// Optional aggregation over the full filtered set.
    pub aggregation: Option<AggregationPlan>,
}

/// Runtime and shape budgets for one complete global execution.
#[derive(Debug)]
pub struct ExecutionLimits {
    /// Maximum records inspected across all shards.
    pub max_scanned_records: u64,
    /// Maximum records retained after filtering.
    pub max_matched_records: u64,
    /// Maximum requested page size.
    pub max_returned_records: usize,
    /// Maximum distinct aggregation groups.
    pub max_groups: usize,
    /// Maximum nodes in the recursive filter expression.
    pub max_filter_nodes: usize,
    /// Maximum recursive filter depth, counting the root as one.
    pub max_filter_depth: usize,
    /// Maximum explicit sort fields.
    pub max_sort_fields: usize,
    /// Maximum group-key fields.
    pub max_group_fields: usize,
    /// Maximum metrics in one plan.
    pub max_metrics: usize,
    /// Cooperative monotonic execution timeout in nanoseconds.
    pub timeout_nanos: u128,
}

impl Default for ExecutionLimits {
    fn default() -> (r: Self)
        ensures
            r.max_scanned_records == 1_000_000,
            r.max_matched_records == 100_000,
            r.max_returned_records == 1_000,
            r.max_groups == 10_000,
            r.max_filter_nodes == 256,
            r.max_filter_depth == 64,
            r.max_sort_fields == 16,
            r.max_group_fields == 8,
            r.max_metrics == 32,
            r.timeout_nanos == 30_000_000_000,
    {
        ExecutionLimits {
            max_scanned_records: 1_000_000,
            max_matched_records: 100_000,
            max_returned_records: 1_000,
            max_groups: 10_000,
            max_filter_nodes: 256,
            max_filter_depth: 64,
            max_sort_fields: 16,
            max_group_fields: 8,
            max_metrics: 32,
            timeout_nanos: 30_000_000_000,
        }
    }
}

/// Value emitted by one aggregate metric.
#[derive(Debug, PartialEq)]
pub enum MetricValue {
    /// Record count.
    Count(u64),
    /// Checked integer result; `None` means no non-null inputs.
    Integer(Option<i128>),
    /// Minimum or maximum value; `None` means no non-null inputs.
    Value(Option<Value>),
}

/// Named aggregate output.
#[derive(Debug)]
pub struct NamedMetricValue {
    /// Metric name copied from the plan.
    pub name: String,
    /// Calculated value.
    pub value: MetricValue,
}

/// One deterministic aggregation group.
#[derive(Debug)]
pub struct GroupResult {
    /// Group values in plan order. `None` means a missing path; explicit null is
    /// represented by `Some(Value::Null)`.
    pub key: Vec<Option<Value>>,
    /// Metric values in plan order.
    pub metrics: Vec<NamedMetricValue>,
}

/// Aggregation output. An ungrouped plan has one empty-key group.
#[derive(Debug)]
pub struct AggregationResult {
    /// Whether the originating plan had explicit group fields.
    pub grouped: bool,
    /// Groups in deterministic key order.
    pub groups: Vec<GroupResult>,
}

/// Complete successful query response.
#[derive(Debug)]
pub struct QueryResult {
    /// Page rows after global merge, sort, cursor, and limit.
    pub rows: Vec<Record>,
    /// Cursor after the last row when more rows remain.
    pub next_cursor: Option<Cursor>,
    /// Optional aggregation over every filtered record before pagination.
    pub aggregation: Option<AggregationResult>,
    /// Records inspected across every shard.
    pub scanned_records: u64,
    /// Records matching the filter before pagination.
    pub matched_records: u64,
}

/// Failure to validate or completely execute one structured query.
#[derive(Clone, Debug, PartialEq, Eq)]
pub enum QueryError {
    /// Record keys must be nonempty.
    EmptyRecordKey,
    /// Keys must be globally unique across shards.
    DuplicateRecordKey,
    /// A page must request at least one row.
    ZeroLimit,
    /// Requested page size exceeds policy.
    ResultLimitExceeded { requested: usize, maximum: usize },
    /// Filter expression is too large.
    FilterNodesExceeded { actual: usize, maximum: usize },
    /// Filter expression is nested too deeply.
    FilterDepthExceeded { maximum: usize },
    /// Too many explicit sort fields were requested.
    SortFieldsExceeded { actual: usize, maximum: usize },
    /// Cursor shape does not match the sort plan.
    CursorShape { actual: usize, expected: usize },
    /// Cursor keys must be nonempty.
    EmptyCursorKey,
    /// Explicit null must use the canonical `None` cursor representation.
    NoncanonicalCursorNull,
    /// A prefix filter literal is not a string or bytes value.
    InvalidPrefixType,
    /// Too many group fields were requested.
    GroupFieldsExceeded { actual: usize, maximum: usize },
    /// Too many metrics were requested.
    MetricsExceeded { actual: usize, maximum: usize },
    /// Metric names must be nonempty.
    EmptyMetricName,
    /// Metric names must be unique within a plan.
    DuplicateMetricName { name: String },
    /// Global scan budget was exhausted.
    ScannedBudgetExceeded { maximum: u64 },
    /// Filtered-result memory budget was exhausted.
    MatchedBudgetExceeded { maximum: u64 },
    /// Aggregation group budget was exhausted.
    GroupBudgetExceeded { maximum: usize },
    /// Cooperative monotonic deadline expired.
    TimedOut,
    /// Sum encountered a non-integer value.
    MetricTypeMismatch { name: String },
    /// Checked aggregate arithmetic overflowed.
    ArithmeticOverflow { name: String },
    /// Internal aggregate state did not match its validated metric plan.
    MetricStateMismatch,
}

// ---------------------------------------------------------------------------
// Shape of a query.

/// Number of nodes in a filter expression.
pub open spec fn filter_nodes(f: Filter) -> nat
    decreases f,
{
    match f {
        Filter::All(children) => 1 + filter_nodes_all(children@),
        Filter::Any(children) => 1 + filter_nodes_all(children@),
        Filter::Not(child) => 1 + filter_nodes(*child),
        _ => 1,
    }
}

/// Number of nodes in a list of filter expressions.
pub open spec fn filter_nodes_all(children: Seq<Filter>) -> nat
    decreases children,
{
    if children.len() == 0 {
        0
    } else {
        filter_nodes_all(children.subrange(0, children.len() - 1)) + filter_nodes(
            children[children.len() - 1],
        )
    }
}

/// Depth of a filter expression, counting the root as one.
pub open spec fn filter_depth(f: Filter) -> nat
    decreases f,
{
    match f {
        Filter::All(children) => 1 + filter_depth_all(children@),
        Filter::Any(children) => 1 + filter_depth_all(children@),
        Filter::Not(child) => 1 + filter_depth(*child),
        _ => 1,
    }
}

/// Greatest depth in a list of filter expressions; zero for none.
pub open spec fn filter_depth_all(children: Seq<Filter>) -> nat
    decreases children,
{
    if children.len() == 0 {
        0
    } else {
        let rest = filter_depth_all(children.subrange(0, children.len() - 1));
        let last = filter_depth(children[children.len() - 1]);
        if rest >= last {
            rest
        } else {
            last
        }
    }
}

/// Number of filter nodes, saturated at `usize::MAX`.
pub open spec fn saturated_filter_nodes(f: Filter) -> nat {
    if filter_nodes(f) > usize::MAX {
        usize::MAX as nat
    } else {
        filter_nodes(f)
    }
}

/// Whether a value model is a string or bytes literal.
pub open spec fn is_prefix_literal(v: ValueModel) -> bool {
    v is Text || v is Bytes
}

/// Every prefix node of the filter has a string or bytes literal.
pub open spec fn prefixes_valid(f: Filter) -> bool
    decreases f,
{
    match f {
        Filter::Prefix { prefix, .. } => is_prefix_literal(model_of(prefix)),
        Filter::All(children) => prefixes_valid_all(children@),
        Filter::Any(children) => prefixes_valid_all(children@),
        Filter::Not(child) => prefixes_valid(*child),
        _ => true,
    }
}

/// Every filter in the list has valid prefix literals.
pub open spec fn prefixes_valid_all(children: Seq<Filter>) -> bool
    decreases children,
{
    if children.len() == 0 {
        true
    } else {
        prefixes_valid_all(children.subrange(0, children.len() - 1)) && prefixes_valid(
            children[children.len() - 1],
        )
    }
}

/// The cursor validation outcome for a plan with `sort_fields` sort fields.
pub open spec fn cursor_outcome(cursor: Cursor, sort_fields: nat) -> Result<(), QueryError> {
    if cursor.sort_values@.len() != sort_fields {
        Err(
            QueryError::CursorShape {
                actual: cursor.sort_values@.len() as usize,
                expected: sort_fields as usize,
            },
        )
    } else if cursor.key@.len() == 0 {
        Err(QueryError::EmptyCursorKey)
    } else if exists|i: int|
        0 <= i < cursor.sort_values@.len() && (#[trigger] cursor.sort_values@[i] matches Some(
            v,
        ) && model_of(v) == ValueModel::Null)
    {
        Err(QueryError::NoncanonicalCursorNull)
    } else {
        Ok(())
    }
}

/// Metric names of a plan, as bytes.
pub open spec fn metric_names(metrics: Seq<NamedMetric>) -> Seq<Seq<u8>> {
    Seq::new(metrics.len(), |i: int| encode_utf8(metrics[i].name@))
}

/// The metric name at `k` is nonempty and differs from every earlier name.
pub open spec fn metric_name_ok(names: Seq<Seq<u8>>, k: int) -> bool {
    names[k].len() != 0 && forall|j: int| 0 <= j < k ==> names[j] != names[k]
}

/// Index of the first metric that is empty or repeats an earlier name.
pub open spec fn first_bad_metric(names: Seq<Seq<u8>>, i: int) -> bool {
    &&& 0 <= i < names.len()
    &&& !metric_name_ok(names, i)
    &&& forall|k: int| 0 <= k < i ==> #[trigger] metric_name_ok(names, k)
}

/// The aggregation validation outcome.
pub open spec fn aggregation_outcome(plan: AggregationPlan, limits: ExecutionLimits) -> Result<
    (),
    QueryError,
> {
    let names = metric_names(plan.metrics@);
    if plan.group_by@.len() > limits.max_group_fields {
        Err(
            QueryError::GroupFieldsExceeded {
                actual: plan.group_by@.len() as usize,
                maximum: limits.max_group_fields,
            },
        )
    } else if plan.metrics@.len() > limits.max_metrics {
        Err(
            QueryError::MetricsExceeded {
                actual: plan.metrics@.len() as usize,
                maximum: limits.max_metrics,
            },
        )
    } else if exists|i: int| first_bad_metric(names, i) {
        let i = choose|i: int| first_bad_metric(names, i);
        if names[i].len() == 0 {
            Err(QueryError::EmptyMetricName)
        } else {
            Err(QueryError::DuplicateMetricName { name: plan.metrics@[i].name })
        }
    } else {
        Ok(())
    }
}

/// The complete pre-execution validation outcome of a query.
pub open spec fn validation_outcome(query: Query, limits: ExecutionLimits) -> Result<(), QueryError> {
    if query.limit == 0 {
        Err(QueryError::ZeroLimit)
    } else if query.limit > limits.max_returned_records {
        Err(
            QueryError::ResultLimitExceeded {
                requested: query.limit,
                maximum: limits.max_returned_records,
            },
        )
    } else if saturated_filter_nodes(query.filter) > limits.max_filter_nodes {
        Err(
            QueryError::FilterNodesExceeded {
                actual: saturated_filter_nodes(query.filter) as usize,
                maximum: limits.max_filter_nodes,
            },
        )
    } else if filter_depth(query.filter) > limits.max_filter_depth {
        Err(QueryError::FilterDepthExceeded { maximum: limits.max_filter_depth })
    } else if !prefixes_valid(query.filter) {
        Err(QueryError::InvalidPrefixType)
    } else if query.sort@.len() > limits.max_sort_fields {
        Err(
            QueryError::SortFieldsExceeded {
                actual: query.sort@.len() as usize,
                maximum: limits.max_sort_fields,
            },
        )
    } else if query.cursor is Some && cursor_outcome(query.cursor->0, query.sort@.len()) is Err {
        cursor_outcome(query.cursor->0, query.sort@.len())
    } else if query.aggregation is Some && aggregation_outcome(query.aggregation->0, limits) is Err {
        aggregation_outcome(query.aggregation->0, limits)
    } else {
        Ok(())
    }
}

proof fn lemma_filter_nodes_all_step(children: Seq<Filter>, i: int)
    requires
        0 <= i < children.len(),
    ensures
        filter_nodes_all(children.subrange(0, i + 1)) == filter_nodes_all(children.subrange(0, i))
            + filter_nodes(children[i]),
{
    let s = children.subrange(0, i + 1);
    assert(s.subrange(0, s.len() - 1) =~= children.subrange(0, i));
}

proof fn lemma_prefixes_all_step(children: Seq<Filter>, i: int)
    requires
        0 <= i < children.len(),
    ensures
        prefixes_valid_all(children.subrange(0, i + 1)) == (prefixes_valid_all(
            children.subrange(0, i),
        ) && prefixes_valid(children[i])),
{
    let s = children.subrange(0, i + 1);
    assert(s.subrange(0, s.len() - 1) =~= children.subrange(0, i));
}

proof fn lemma_filter_depth_all_step(children: Seq<Filter>, i: int)
    requires
        0 <= i < children.len(),
    ensures
        filter_depth_all(children.subrange(0, i + 1)) == if filter_depth_all(children.subrange(0, i))
            >= filter_depth(children[i]) {
            filter_depth_all(children.subrange(0, i))
        } else {
            filter_depth(children[i])
        },
{
    let s = children.subrange(0, i + 1);
    assert(s.subrange(0, s.len() - 1) =~= children.subrange(0, i));
}

/// Whether a filter is at most `budget` deep.
fn filter_within_depth(filter: &Filter, budget: usize) -> (r: bool)
    ensures
        r == (filter_depth(*filter) <= budget),
    decreases filter,
{
    if budget == 0 {
        return false;
    }
    match filter {
        Filter::All(children) => filters_within_depth(children, budget - 1),
        Filter::Any(children) => filters_within_depth(children, budget - 1),
        Filter::Not(child) => filter_within_depth(child, budget - 1),
        _ => true,
    }
}

/// Whether every filter of a list is at most `budget` deep.
fn filters_within_depth(children: &Vec<Filter>, budget: usize) -> (r: bool)
    ensures
        r == (filter_depth_all(children@) <= budget),
    decreases children,
{
    let mut i: usize = 0;
    while i < children.len()
        invariant
            i <= children@.len(),
            filter_depth_all(children@.subrange(0, i as int)) <= budget,
        decreases children@.len() - i,
    {
        proof {
            lemma_filter_depth_all_step(children@, i as int);
        }
        if !filter_within_depth(&children[i], budget) {
            proof {
                lemma_filter_depth_all_prefix(children@, i + 1);
            }
            return false;
        }
        i = i + 1;
    }
    proof {
        assert(children@.subrange(0, children@.len() as int) =~= children@);
    }
    true
}

/// The depth of a list bounds the depth of each prefix.
proof fn lemma_filter_depth_all_prefix(children: Seq<Filter>, k: int)
    requires
        0 <= k <= children.len(),
    ensures
        filter_depth_all(children.subrange(0, k)) <= filter_depth_all(children),
    decreases children.len() - k,
{
    if k < children.len() {
        lemma_filter_depth_all_prefix(children, k + 1);
        lemma_filter_depth_all_step(children, k);
    } else {
        assert(children.subrange(0, k) =~= children);
    }
}

/// Counts filter nodes, saturating at `usize::MAX`.
fn count_filter_nodes(filter: &Filter) -> (r: usize)
    ensures
        r == if filter_nodes(*filter) > usize::MAX {
            usize::MAX as nat
        } else {
            filter_nodes(*filter)
        },
    decreases filter,
{
    match filter {
        Filter::All(children) => {
            let inner = count_filter_nodes_all(children);
            if inner == usize::MAX {
                usize::MAX
            } else {
                inner + 1
            }
        },
        Filter::Any(children) => {
            let inner = count_filter_nodes_all(children);
            if inner == usize::MAX {
                usize::MAX
            } else {
                inner + 1
            }
        },
        Filter::Not(child) => {
            let inner = count_filter_nodes(child);
            if inner == usize::MAX {
                usize::MAX
            } else {
                inner + 1
            }
        },
        _ => 1,
    }
}

fn count_filter_nodes_all(children: &Vec<Filter>) -> (r: usize)
    ensures
        r == if filter_nodes_all(children@) > usize::MAX {
            usize::MAX as nat
        } else {
            filter_nodes_all(children@)
        },
    decreases children,
{
    let mut total: usize = 0;
    let mut i: usize = 0;
    while i < children.len()
        invariant
            i <= children@.len(),
            total == if filter_nodes_all(children@.subrange(0, i as int)) > usize::MAX {
                usize::MAX as nat
            } else {
                filter_nodes_all(children@.subrange(0, i as int))
            },
        decreases children@.len() - i,
    {
        let count = count_filter_nodes(&children[i]);
        proof {
            lemma_filter_nodes_all_step(children@, i as int);
        }
        if total > usize::MAX - count {
            total = usize::MAX;
        } else {
            total = total + count;
        }
        i = i + 1;
    }
    proof {
        assert(children@.subrange(0, children@.len() as int) =~= children@);
    }
    total
}

fn is_prefix_literal_value(v: &Value) -> (r: bool)
    ensures
        r == is_prefix_literal(model_of(*v)),
{
    match v {
        Value::String(_) => true,
        Value::Bytes(_) => true,
        _ => false,
    }
}

fn check_prefixes(filter: &Filter) -> (r: bool)
    ensures
        r == prefixes_valid(*filter),
    decreases filter,
{
    match filter {
        Filter::Prefix { prefix, .. } => is_prefix_literal_value(prefix),
        Filter::All(children) => check_prefixes_all(children),
        Filter::Any(children) => check_prefixes_all(children),
        Filter::Not(child) => check_prefixes(child),
        _ => true,
    }
}

fn check_prefixes_all(children: &Vec<Filter>) -> (r: bool)
    ensures
        r == prefixes_valid_all(children@),
    decreases children,
{
    let mut i: usize = 0;
    while i < children.len()
        invariant
            i <= children@.len(),
            prefixes_valid_all(children@.subrange(0, i as int)),
        decreases children@.len() - i,
    {
        proof {
            lemma_prefixes_all_step(children@, i as int);
        }
        if !check_prefixes(&children[i]) {
            proof {
                lemma_prefixes_invalid_extends(children@, i as int);
            }
            return false;
        }
        i = i + 1;
    }
    proof {
        assert(children@.subrange(0, children@.len() as int) =~= children@);
    }
    true
}

proof fn lemma_prefixes_invalid_extends(children: Seq<Filter>, i: int)
    requires
        0 <= i < children.len(),
        !prefixes_valid(children[i]),
    ensures
        !prefixes_valid_all(children),
    decreases children.len(),
{
    if i < children.len() - 1 {
        let s = children.subrange(0, children.len() - 1);
        assert(s[i] == children[i]);
        lemma_prefixes_invalid_extends(s, i);
    }
}

fn validate_cursor(cursor: &Cursor, sort_fields: usize) -> (r: Result<(), QueryError>)
    ensures
        r == cursor_outcome(*cursor, sort_fields as nat),
{
    if cursor.sort_values.len() != sort_fields {
        return Err(
            QueryError::CursorShape { actual: cursor.sort_values.len(), expected: sort_fields },
        );
    }
    if cursor.key.len() == 0 {
        return Err(QueryError::EmptyCursorKey);
    }
    let mut i: usize = 0;
    while i < cursor.sort_values.len()
        invariant
            i <= cursor.sort_values@.len(),
            cursor.sort_values@.len() == sort_fields,
            cursor.key@.len() != 0,
            forall|k: int|
                0 <= k < i ==> !(#[trigger] cursor.sort_values@[k] matches Some(v) && model_of(v)
                    == ValueModel::Null),
        decreases cursor.sort_values@.len() - i,
    {
        match &cursor.sort_values[i] {
            Some(Value::Null) => {
                proof {
                    assert(cursor.sort_values@[i as int] matches Some(v) && model_of(v)
                        == ValueModel::Null);
                }
                return Err(QueryError::NoncanonicalCursorNull);
            },
            _ => {},
        }
        i = i + 1;
    }
    Ok(())
}

fn validate_aggregation(plan: &AggregationPlan, limits: &ExecutionLimits) -> (r: Result<
    (),
    QueryError,
>)
    ensures
        r == aggregation_outcome(*plan, *limits),
{
    if plan.group_by.len() > limits.max_group_fields {
        return Err(
            QueryError::GroupFieldsExceeded {
                actual: plan.group_by.len(),
                maximum: limits.max_group_fields,
            },
        );
    }
    if plan.metrics.len() > limits.max_metrics {
        return Err(
            QueryError::MetricsExceeded { actual: plan.metrics.len(), maximum: limits.max_metrics },
        );
    }
    let ghost names = metric_names(plan.metrics@);
    let mut i: usize = 0;
    while i < plan.metrics.len()
        invariant
            i <= plan.metrics@.len(),
            plan.group_by@.len() <= limits.max_group_fields,
            plan.metrics@.len() <= limits.max_metrics,
            names == metric_names(plan.metrics@),
            names.len() == plan.metrics@.len(),
            forall|k: int| 0 <= k < i ==> #[trigger] metric_name_ok(names, k),
        decreases plan.metrics@.len() - i,
    {
        let name = plan.metrics[i].name.as_str();
        proof {
            assert(names[i as int] == name.spec_bytes());
        }
        if name.as_bytes().len() == 0 {
            proof {
                assert(0 <= i < names.len());
                assert(names[i as int].len() == 0);
                assert(!metric_name_ok(names, i as int));
                assert(first_bad_metric(names, i as int));
                lemma_first_bad_unique(names, i as int);
            }
            return Err(QueryError::EmptyMetricName);
        }
        let mut j: usize = 0;
        while j < i
            invariant
                j <= i < plan.metrics@.len(),
                names == metric_names(plan.metrics@),
                names[i as int] == name.spec_bytes(),
                plan.group_by@.len() <= limits.max_group_fields,
                plan.metrics@.len() <= limits.max_metrics,
                names.len() == plan.metrics@.len(),
                names[i as int].len() != 0,
                forall|k: int| 0 <= k < i ==> #[trigger] metric_name_ok(names, k),
                forall|k: int| 0 <= k < j ==> names[k] != names[i as int],
            decreases i - j,
        {
            if bytes_equal(plan.metrics[j].name.as_str().as_bytes(), name.as_bytes()) {
                proof {
                    assert(names[j as int] == names[i as int]);
                    assert(first_bad_metric(names, i as int));
                    lemma_first_bad_unique(names, i as int);
                }
                let duplicate = plan.metrics[i].name.clone();
                proof {
                    assert(duplicate == plan.metrics@[i as int].name);
                    assert((choose|k: int| first_bad_metric(names, k)) == i);
                }
                return Err(QueryError::DuplicateMetricName { name: duplicate });
            }
            j = j + 1;
        }
        proof {
            assert(metric_name_ok(names, i as int));
        }
        i = i + 1;
    }
    proof {
        assert forall|k: int| !first_bad_metric(names, k) by {}
    }
    Ok(())
}

proof fn lemma_first_bad_unique(names: Seq<Seq<u8>>, i: int)
    requires
        first_bad_metric(names, i),
    ensures
        (choose|k: int| first_bad_metric(names, k)) == i,
{
    let k = choose|k: int| first_bad_metric(names, k);
    if k < i {
        assert(metric_name_ok(names, k));
    }
    if k > i {
        assert(metric_name_ok(names, i));
    }
}

/// Validates query shape and cursor canonicality without scanning records.
pub fn validate_query(query: &Query, limits: &ExecutionLimits) -> (r: Result<(), QueryError>)
    ensures
        r == validation_outcome(*query, *limits),
{
    if query.limit == 0 {
        return Err(QueryError::ZeroLimit);
    }
    if query.limit > limits.max_returned_records {
        return Err(
            QueryError::ResultLimitExceeded {
                requested: query.limit,
                maximum: limits.max_returned_records,
            },
        );
    }
    let filter_nodes_count = count_filter_nodes(&query.filter);
    if filter_nodes_count > limits.max_filter_nodes {
        return Err(
            QueryError::FilterNodesExceeded {
                actual: filter_nodes_count,
                maximum: limits.max_filter_nodes,
            },
        );
    }
    if !filter_within_depth(&query.filter, limits.max_filter_depth) {
        return Err(QueryError::FilterDepthExceeded { maximum: limits.max_filter_depth });
    }
    if !check_prefixes(&query.filter) {
        return Err(QueryError::InvalidPrefixType);
    }
    if query.sort.len() > limits.max_sort_fields {
        return Err(
            QueryError::SortFieldsExceeded {
                actual: query.sort.len(),
                maximum: limits.max_sort_fields,
            },
        );
    }
    if let Some(cursor) = &query.cursor {
        let checked = validate_cursor(cursor, query.sort.len());
        if checked.is_err() {
            return checked;
        }
    }
    if let Some(plan) = &query.aggregation {
        let checked = validate_aggregation(plan, limits);
        if checked.is_err() {
            return checked;
        }
    }
    Ok(())
}

// ---------------------------------------------------------------------------
// Filter semantics.

/// Whether `needle` occurs as a contiguous run of `haystack`.
pub open spec fn is_subslice(needle: Seq<u8>, haystack: Seq<u8>) -> bool {
    exists|k: int|
        0 <= k && k + needle.len() <= haystack.len() && #[trigger] haystack.subrange(
            k,
            k + needle.len(),
        ) == needle
}

/// Whether `prefix` is a prefix of `s`.
pub open spec fn is_prefix_of(prefix: Seq<u8>, s: Seq<u8>) -> bool {
    prefix.len() <= s.len() && s.subrange(0, prefix.len() as int) == prefix
}

/// Comparison of one resolved value against a literal.
pub open spec fn compare_holds(a: ValueModel, b: ValueModel, op: CompareOperator) -> bool {
    let same = variant_rank(a) == variant_rank(b);
    match op {
        CompareOperator::Equal => a == b,
        CompareOperator::NotEqual => a != b,
        CompareOperator::Less => same && model_order(a, b) < 0,
        CompareOperator::LessOrEqual => same && model_order(a, b) <= 0,
        CompareOperator::Greater => same && model_order(a, b) > 0,
        CompareOperator::GreaterOrEqual => same && model_order(a, b) >= 0,
    }
}

/// Containment tests: an array contains each of its items and nothing
/// else; a text or byte string contains every contiguous part of it,
/// including itself and the empty string; values of different kinds never
/// match.
pub proof fn lemma_contains_tests(items: Seq<ValueModel>, v: ValueModel, x: Seq<u8>, y: Seq<u8>, z: Seq<u8>)
    ensures
        contains_holds(ValueModel::Array(items), v) <==> items.contains(v),
        contains_holds(ValueModel::Text(x + y + z), ValueModel::Text(y)),
        contains_holds(ValueModel::Bytes(x + y + z), ValueModel::Bytes(y)),
        contains_holds(ValueModel::Bytes(x), ValueModel::Bytes(Seq::empty())),
        y.len() > x.len() ==> !contains_holds(ValueModel::Text(x), ValueModel::Text(y)),
        !contains_holds(ValueModel::Text(x), ValueModel::Bytes(y)),
        !contains_holds(ValueModel::Integer(0), v),
{
    let w = x + y + z;
    assert(w.subrange(x.len() as int, (x.len() + y.len()) as int) =~= y);
    let e = Seq::<u8>::empty();
    assert(x.subrange(0, 0 + e.len() as int) =~= e);
    assert(is_subslice(e, x));
}

/// The comparison operators are the relations of one strict total order
/// within a variant: equality is identity; `NotEqual` is its negation;
/// `Less` is irreflexive and transitive and relates only values of one
/// variant, any two of which it orders one way or the other unless they are
/// equal; `LessOrEqual` is `Less` or `Equal`; `Greater` and
/// `GreaterOrEqual` are `Less` and `LessOrEqual` with the operands swapped.
pub proof fn lemma_compare_operators(a: ValueModel, b: ValueModel, c: ValueModel)
    ensures
        compare_holds(a, a, CompareOperator::Equal),
        compare_holds(a, b, CompareOperator::Equal) ==> a == b,
        compare_holds(a, b, CompareOperator::NotEqual) <==> !compare_holds(a, b, CompareOperator::Equal),
        !compare_holds(a, a, CompareOperator::Less),
        compare_holds(a, b, CompareOperator::Less) && compare_holds(b, c, CompareOperator::Less)
            ==> compare_holds(a, c, CompareOperator::Less),
        compare_holds(a, b, CompareOperator::Less) ==> variant_rank(a) == variant_rank(b),
        variant_rank(a) == variant_rank(b) ==> compare_holds(a, b, CompareOperator::Less) || compare_holds(
            a,
            b,
            CompareOperator::Equal,
        ) || compare_holds(b, a, CompareOperator::Less),
        compare_holds(a, b, CompareOperator::LessOrEqual) <==> (compare_holds(a, b, CompareOperator::Less)
            || compare_holds(a, b, CompareOperator::Equal)),
        compare_holds(a, b, CompareOperator::Greater) <==> compare_holds(b, a, CompareOperator::Less),
        compare_holds(a, b, CompareOperator::GreaterOrEqual) <==> compare_holds(b, a, CompareOperator::LessOrEqual),
{
    lemma_model_order_antisym(a, b);
    lemma_model_order_antisym(a, a);
    lemma_model_order_antisym(b, c);
    lemma_model_order_antisym(a, c);
    if compare_holds(a, b, CompareOperator::Less) && compare_holds(b, c, CompareOperator::Less) {
        lemma_model_order_trans(a, b, c);
    }
}

/// On integers the comparison operators are the numeric relations.
pub proof fn lemma_compare_integers(x: int, y: int)
    ensures
        compare_holds(ValueModel::Integer(x), ValueModel::Integer(y), CompareOperator::Equal) <==> x == y,
        compare_holds(ValueModel::Integer(x), ValueModel::Integer(y), CompareOperator::NotEqual) <==> x != y,
        compare_holds(ValueModel::Integer(x), ValueModel::Integer(y), CompareOperator::Less) <==> x < y,
        compare_holds(ValueModel::Integer(x), ValueModel::Integer(y), CompareOperator::LessOrEqual) <==> x <= y,
        compare_holds(ValueModel::Integer(x), ValueModel::Integer(y), CompareOperator::Greater) <==> x > y,
        compare_holds(ValueModel::Integer(x), ValueModel::Integer(y), CompareOperator::GreaterOrEqual) <==> x >= y,
{
}

/// A compare filter whose path resolves to a value equal to its literal
/// holds for `Equal`, `LessOrEqual` and `GreaterOrEqual` and fails for the
/// strict and negated operators.
pub proof fn lemma_compare_filter_on_equal_value(path: FieldPath, operator: CompareOperator, value: Value, root: ValueModel)
    requires
        resolve_model(root, path@) == Some(model_of(value)),
    ensures
        filter_holds(Filter::Compare { path, operator, value }, root) <==> (operator == CompareOperator::Equal
            || operator == CompareOperator::LessOrEqual || operator == CompareOperator::GreaterOrEqual),
{
    lemma_model_order_antisym(model_of(value), model_of(value));
}

/// A UTF-8 or binary prefix test between values of the same type.
pub open spec fn prefix_holds(a: ValueModel, p: ValueModel) -> bool {
    match (a, p) {
        (ValueModel::Text(x), ValueModel::Text(y)) => is_prefix_of(y, x),
        (ValueModel::Bytes(x), ValueModel::Bytes(y)) => is_prefix_of(y, x),
        _ => false,
    }
}

/// Prefix tests: every text or byte string starts with the empty string,
/// with itself, and with every leading part of it; a string longer than the
/// value is never its prefix; values of different kinds never match.
pub proof fn lemma_prefix_tests(x: Seq<u8>, y: Seq<u8>)
    ensures
        prefix_holds(ValueModel::Text(x), ValueModel::Text(Seq::empty())),
        prefix_holds(ValueModel::Bytes(x), ValueModel::Bytes(x)),
        prefix_holds(ValueModel::Text(x + y), ValueModel::Text(x)),
        prefix_holds(ValueModel::Bytes(x + y), ValueModel::Bytes(x)),
        y.len() > x.len() ==> !prefix_holds(ValueModel::Bytes(x), ValueModel::Bytes(y)),
        !prefix_holds(ValueModel::Text(x), ValueModel::Bytes(y)),
        !prefix_holds(ValueModel::Bytes(x), ValueModel::Text(y)),
{
    assert(x.subrange(0, 0) =~= Seq::<u8>::empty());
    assert(x.subrange(0, x.len() as int) =~= x);
    assert((x + y).subrange(0, x.len() as int) =~= x);
}

/// Array membership, UTF-8 substring, or byte subsequence.
pub open spec fn contains_holds(a: ValueModel, n: ValueModel) -> bool {
    match a {
        ValueModel::Array(items) => items.contains(n),
        ValueModel::Text(x) => match n {
            ValueModel::Text(y) => is_subslice(y, x),
            _ => false,
        },
        ValueModel::Bytes(x) => match n {
            ValueModel::Bytes(y) => is_subslice(y, x),
            _ => false,
        },
        _ => false,
    }
}

/// Whether a filter matches a root value.
pub open spec fn filter_holds(f: Filter, root: ValueModel) -> bool
    decreases f,
{
    match f {
        Filter::MatchAll => true,
        Filter::Exists(path) => resolve_model(root, path@) is Some,
        Filter::Compare { path, operator, value } => match resolve_model(root, path@) {
            Some(a) => compare_holds(a, model_of(value), operator),
            None => false,
        },
        Filter::Prefix { path, prefix } => match resolve_model(root, path@) {
            Some(a) => prefix_holds(a, model_of(prefix)),
            None => false,
        },
        Filter::Contains { path, needle } => match resolve_model(root, path@) {
            Some(a) => contains_holds(a, model_of(needle)),
            None => false,
        },
        Filter::All(children) => all_hold(children@, root),
        Filter::Any(children) => any_holds(children@, root),
        Filter::Not(child) => !filter_holds(*child, root),
    }
}

/// Every filter in the list matches.
pub open spec fn all_hold(children: Seq<Filter>, root: ValueModel) -> bool
    decreases children,
{
    if children.len() == 0 {
        true
    } else {
        all_hold(children.subrange(0, children.len() - 1), root) && filter_holds(
            children[children.len() - 1],
            root,
        )
    }
}

/// At least one filter in the list matches.
pub open spec fn any_holds(children: Seq<Filter>, root: ValueModel) -> bool
    decreases children,
{
    if children.len() == 0 {
        false
    } else {
        any_holds(children.subrange(0, children.len() - 1), root) || filter_holds(
            children[children.len() - 1],
            root,
        )
    }
}

proof fn lemma_all_hold_step(children: Seq<Filter>, i: int, root: ValueModel)
    requires
        0 <= i < children.len(),
    ensures
        all_hold(children.subrange(0, i + 1), root) == (all_hold(children.subrange(0, i), root)
            && filter_holds(children[i], root)),
        any_holds(children.subrange(0, i + 1), root) == (any_holds(children.subrange(0, i), root)
            || filter_holds(children[i], root)),
{
    let s = children.subrange(0, i + 1);
    assert(s.subrange(0, s.len() - 1) =~= children.subrange(0, i));
}

proof fn lemma_all_hold_false_extends(children: Seq<Filter>, i: int, root: ValueModel)
    requires
        0 <= i < children.len(),
        !filter_holds(children[i], root),
    ensures
        !all_hold(children, root),
    decreases children.len(),
{
    if i < children.len() - 1 {
        let s = children.subrange(0, children.len() - 1);
        assert(s[i] == children[i]);
        lemma_all_hold_false_extends(s, i, root);
    }
}

proof fn lemma_any_hold_true_extends(children: Seq<Filter>, i: int, root: ValueModel)
    requires
        0 <= i < children.len(),
        filter_holds(children[i], root),
    ensures
        any_holds(children, root),
    decreases children.len(),
{
    if i < children.len() - 1 {
        let s = children.subrange(0, children.len() - 1);
        assert(s[i] == children[i]);
        lemma_any_hold_true_extends(s, i, root);
    }
}

fn same_variant(a: &Value, b: &Value) -> (r: bool)
    ensures
        r == (variant_rank(model_of(*a)) == variant_rank(model_of(*b))),
{
    match (a, b) {
        (Value::Null, Value::Null) => true,
        (Value::Boolean(_), Value::Boolean(_)) => true,
        (Value::Integer(_), Value::Integer(_)) => true,
        (Value::String(_), Value::String(_)) => true,
        (Value::Bytes(_), Value::Bytes(_)) => true,
        (Value::Array(_), Value::Array(_)) => true,
        (Value::Object(_), Value::Object(_)) => true,
        _ => false,
    }
}

fn compare_filter(left: &Value, right: &Value, operator: CompareOperator) -> (r: bool)
    ensures
        r == compare_holds(model_of(*left), model_of(*right), operator),
{
    match operator {
        CompareOperator::Equal => values_equal(left, right),
        CompareOperator::NotEqual => !values_equal(left, right),
        _ => {
            if !same_variant(left, right) {
                return false;
            }
            let order = compare_values(left, right);
            match operator {
                CompareOperator::Less => order == Comparison::Less,
                CompareOperator::LessOrEqual => order != Comparison::Greater,
                CompareOperator::Greater => order == Comparison::Greater,
                _ => order != Comparison::Less,
            }
        },
    }
}

/// Whether `prefix` is a prefix of `s`.
pub fn bytes_start_with(s: &[u8], prefix: &[u8]) -> (r: bool)
    ensures
        r == is_prefix_of(prefix@, s@),
{
    if prefix.len() > s.len() {
        return false;
    }
    let mut i: usize = 0;
    while i < prefix.len()
        invariant
            prefix@.len() <= s@.len(),
            i <= prefix@.len(),
            forall|k: int| 0 <= k < i ==> s@[k] == prefix@[k],
        decreases prefix@.len() - i,
    {
        if s[i] != prefix[i] {
            proof {
                assert(s@.subrange(0, prefix@.len() as int)[i as int] != prefix@[i as int]);
            }
            return false;
        }
        i = i + 1;
    }
    proof {
        assert(s@.subrange(0, prefix@.len() as int) =~= prefix@);
    }
    true
}

fn matches_at(haystack: &[u8], needle: &[u8], start: usize) -> (r: bool)
    requires
        start + needle@.len() <= haystack@.len(),
    ensures
        r == (haystack@.subrange(start as int, start + needle@.len()) == needle@),
{
    let n = haystack.len();
    let mut i: usize = 0;
    while i < needle.len()
        invariant
            n == haystack@.len(),
            start + needle@.len() <= haystack@.len(),
            i <= needle@.len(),
            forall|k: int| 0 <= k < i ==> haystack@[start + k] == needle@[k],
        decreases needle@.len() - i,
    {
        assert(i < needle@.len());
        assert(start + i < haystack@.len());
        let at = start + i;
        if haystack[at] != needle[i] {
            proof {
                assert(haystack@.subrange(start as int, start + needle@.len())[i as int]
                    != needle@[i as int]);
            }
            return false;
        }
        i = i + 1;
    }
    proof {
        assert(haystack@.subrange(start as int, start + needle@.len()) =~= needle@);
    }
    true
}

/// Whether `needle` occurs as a contiguous run of `haystack`.
pub fn contains_subslice(haystack: &[u8], needle: &[u8]) -> (r: bool)
    ensures
        r == is_subslice(needle@, haystack@),
{
    if needle.len() > haystack.len() {
        return false;
    }
    let last = haystack.len() - needle.len();
    let mut start: usize = 0;
    loop
        invariant
            last + needle@.len() == haystack@.len(),
            start <= last,
            forall|k: int|
                0 <= k < start ==> #[trigger] haystack@.subrange(k, k + needle@.len()) != needle@,
        decreases last - start,
    {
        if matches_at(haystack, needle, start) {
            return true;
        }
        if start == last {
            return false;
        }
        start = start + 1;
    }
}

fn has_prefix(actual: &Value, prefix: &Value) -> (r: bool)
    ensures
        r == prefix_holds(model_of(*actual), model_of(*prefix)),
{
    match (actual, prefix) {
        (Value::String(a), Value::String(p)) => bytes_start_with(a.as_str().as_bytes(), p.as_str().as_bytes()),
        (Value::Bytes(a), Value::Bytes(p)) => bytes_start_with(a.as_slice(), p.as_slice()),
        _ => false,
    }
}

fn contains(actual: &Value, needle: &Value) -> (r: bool)
    ensures
        r == contains_holds(model_of(*actual), model_of(*needle)),
{
    match actual {
        Value::Array(values) => {
            proof {
                lemma_models_of(values@);
            }
            let mut i: usize = 0;
            while i < values.len()
                invariant
                    i <= values@.len(),
                    model_of(*actual) == ValueModel::Array(models_of(values@)),
                    models_of(values@).len() == values@.len(),
                    forall|k: int| 0 <= k < values@.len() ==> #[trigger] models_of(values@)[k] == model_of(values@[k]),
                    forall|k: int| 0 <= k < i ==> #[trigger] models_of(values@)[k] != model_of(*needle),
                decreases values@.len() - i,
            {
                if values_equal(&values[i], needle) {
                    proof {
                        let items = models_of(values@);
                        assert(items[i as int] == model_of(*needle));
                        assert(0 <= i < items.len());
                        assert(items.contains(model_of(*needle)));
                    }
                    return true;
                }
                i = i + 1;
            }
            false
        },
        Value::String(a) => match needle {
            Value::String(n) => contains_subslice(a.as_str().as_bytes(), n.as_str().as_bytes()),
            _ => false,
        },
        Value::Bytes(a) => match needle {
            Value::Bytes(n) => contains_subslice(a.as_slice(), n.as_slice()),
            _ => false,
        },
        _ => false,
    }
}

/// Evaluates a filter against a root value.
pub fn filter_matches(filter: &Filter, root: &Value) -> (r: bool)
    ensures
        r == filter_holds(*filter, model_of(*root)),
    decreases filter,
{
    match filter {
        Filter::MatchAll => true,
        Filter::Exists(path) => path.resolve(root).is_some(),
        Filter::Compare { path, operator, value } => match path.resolve(root) {
            Some(actual) => compare_filter(actual, value, *operator),
            None => false,
        },
        Filter::Prefix { path, prefix } => match path.resolve(root) {
            Some(actual) => has_prefix(actual, prefix),
            None => false,
        },
        Filter::Contains { path, needle } => match path.resolve(root) {
            Some(actual) => contains(actual, needle),
            None => false,
        },
        Filter::All(children) => all_match(children, root),
        Filter::Any(children) => any_match(children, root),
        Filter::Not(child) => !filter_matches(child, root),
    }
}

fn all_match(children: &Vec<Filter>, root: &Value) -> (r: bool)
    ensures
        r == all_hold(children@, model_of(*root)),
    decreases children,
{
    let mut i: usize = 0;
    while i < children.len()
        invariant
            i <= children@.len(),
            all_hold(children@.subrange(0, i as int), model_of(*root)),
        decreases children@.len() - i,
    {
        proof {
            lemma_all_hold_step(children@, i as int, model_of(*root));
        }
        if !filter_matches(&children[i], root) {
            proof {
                lemma_all_hold_false_extends(children@, i as int, model_of(*root));
            }
            return false;
        }
        i = i + 1;
    }
    proof {
        assert(children@.subrange(0, children@.len() as int) =~= children@);
    }
    true
}

fn any_match(children: &Vec<Filter>, root: &Value) -> (r: bool)
    ensures
        r == any_holds(children@, model_of(*root)),
    decreases children,
{
    let mut i: usize = 0;
    while i < children.len()
        invariant
            i <= children@.len(),
            !any_holds(children@.subrange(0, i as int), model_of(*root)),
        decreases children@.len() - i,
    {
        proof {
            lemma_all_hold_step(children@, i as int, model_of(*root));
        }
        if filter_matches(&children[i], root) {
            proof {
                lemma_any_hold_true_extends(children@, i as int, model_of(*root));
            }
            return true;
        }
        i = i + 1;
    }
    proof {
        assert(children@.subrange(0, children@.len() as int) =~= children@);
    }
    false
}

// ---------------------------------------------------------------------------
// Sorting and pagination order.

/// The sort-relevant part of a sort field.
pub open spec fn field_rule(field: SortField) -> (SortDirection, NullPlacement) {
    (field.direction, field.nulls)
}

/// The sort rules of a sort plan.
pub open spec fn sort_rules(sort: Seq<SortField>) -> Seq<(SortDirection, NullPlacement)> {
    Seq::new(sort.len(), |i: int| field_rule(sort[i]))
}

/// Missing and explicit null sort identically (as `None`).
pub open spec fn normalized(v: Option<ValueModel>) -> Option<ValueModel> {
    match v {
        Some(ValueModel::Null) => None,
        _ => v,
    }
}

/// The normalized sort values of a record value under a sort plan.
pub open spec fn sort_values_of(root: ValueModel, sort: Seq<SortField>) -> Seq<Option<ValueModel>> {
    Seq::new(sort.len(), |i: int| normalized(resolve_model(root, sort[i].path@)))
}

/// The models of optional values.
pub open spec fn option_models(values: Seq<Option<Value>>) -> Seq<Option<ValueModel>> {
    Seq::new(
        values.len(),
        |i: int|
            match values[i] {
                Some(v) => Some(model_of(v)),
                None => None,
            },
    )
}

/// Order of two normalized sort values under one rule.
pub open spec fn sort_value_order(
    a: Option<ValueModel>,
    b: Option<ValueModel>,
    rule: (SortDirection, NullPlacement),
) -> int {
    match (a, b) {
        (None, None) => 0,
        (None, Some(_)) => if rule.1 == NullPlacement::First {
            -1
        } else {
            1
        },
        (Some(_), None) => if rule.1 == NullPlacement::First {
            1
        } else {
            -1
        },
        (Some(x), Some(y)) => if rule.0 == SortDirection::Ascending {
            model_order(x, y)
        } else {
            model_order(y, x)
        },
    }
}

/// Lexicographic order of sort-value sequences under the rules.
pub open spec fn values_lex_order(
    a: Seq<Option<ValueModel>>,
    b: Seq<Option<ValueModel>>,
    rules: Seq<(SortDirection, NullPlacement)>,
) -> int
    decreases rules.len(),
{
    if rules.len() == 0 || a.len() == 0 || b.len() == 0 {
        0
    } else {
        let head = sort_value_order(a[0], b[0], rules[0]);
        if head != 0 {
            head
        } else {
            values_lex_order(
                a.subrange(1, a.len() as int),
                b.subrange(1, b.len() as int),
                rules.subrange(1, rules.len() as int),
            )
        }
    }
}

/// Order of two positions (sort values, then binary key ascending).
pub open spec fn position_order(
    a: (Seq<Option<ValueModel>>, Seq<u8>),
    b: (Seq<Option<ValueModel>>, Seq<u8>),
    rules: Seq<(SortDirection, NullPlacement)>,
) -> int {
    let head = values_lex_order(a.0, b.0, rules);
    if head != 0 {
        head
    } else {
        crate::value::bytes_order(a.1, b.1)
    }
}

/// The position of a record under a sort plan.
pub open spec fn record_position(r: Record, sort: Seq<SortField>) -> (
    Seq<Option<ValueModel>>,
    Seq<u8>,
) {
    (sort_values_of(model_of(r.value), sort), r.key@)
}

/// The position a cursor names.
pub open spec fn cursor_position(c: Cursor) -> (Seq<Option<ValueModel>>, Seq<u8>) {
    (option_models(c.sort_values@), c.key@)
}

/// Order between two records under a sort plan.
pub open spec fn record_order(a: Record, b: Record, sort: Seq<SortField>) -> int {
    position_order(record_position(a, sort), record_position(b, sort), sort_rules(sort))
}

proof fn lemma_sort_value_order(
    a: Option<ValueModel>,
    b: Option<ValueModel>,
    c: Option<ValueModel>,
    rule: (SortDirection, NullPlacement),
)
    ensures
        sort_value_order(a, b, rule) == -sort_value_order(b, a, rule),
        -1 <= sort_value_order(a, b, rule) <= 1,
        (sort_value_order(a, b, rule) == 0) == (a == b),
        sort_value_order(a, b, rule) <= 0 && sort_value_order(b, c, rule) <= 0 ==> sort_value_order(
            a,
            c,
            rule,
        ) <= 0,
        sort_value_order(a, b, rule) <= 0 && sort_value_order(b, c, rule) <= 0 && (
        sort_value_order(a, b, rule) < 0 || sort_value_order(b, c, rule) < 0) ==> sort_value_order(
            a,
            c,
            rule,
        ) < 0,
{
    match (a, b) {
        (Some(x), Some(y)) => crate::value::lemma_model_order_antisym(x, y),
        _ => {},
    }
    match (a, c) {
        (Some(x), Some(z)) => crate::value::lemma_model_order_antisym(x, z),
        _ => {},
    }
    match (b, c) {
        (Some(y), Some(z)) => crate::value::lemma_model_order_antisym(y, z),
        _ => {},
    }
    match (a, b, c) {
        (Some(x), Some(y), Some(z)) => {
            if rule.0 == SortDirection::Ascending {
                if model_order(x, y) <= 0 && model_order(y, z) <= 0 {
                    crate::value::lemma_model_order_trans(x, y, z);
                }
            } else {
                if model_order(y, x) <= 0 && model_order(z, y) <= 0 {
                    crate::value::lemma_model_order_trans(z, y, x);
                }
            }
        },
        _ => {},
    }
}

pub(crate) proof fn lemma_values_lex_order(
    a: Seq<Option<ValueModel>>,
    b: Seq<Option<ValueModel>>,
    c: Seq<Option<ValueModel>>,
    rules: Seq<(SortDirection, NullPlacement)>,
)
    requires
        a.len() == rules.len(),
        b.len() == rules.len(),
        c.len() == rules.len(),
    ensures
        values_lex_order(a, b, rules) == -values_lex_order(b, a, rules),
        -1 <= values_lex_order(a, b, rules) <= 1,
        (values_lex_order(a, b, rules) == 0) == (a == b),
        values_lex_order(a, b, rules) <= 0 && values_lex_order(b, c, rules) <= 0
            ==> values_lex_order(a, c, rules) <= 0,
        values_lex_order(a, b, rules) <= 0 && values_lex_order(b, c, rules) <= 0 && (
        values_lex_order(a, b, rules) < 0 || values_lex_order(b, c, rules) < 0)
            ==> values_lex_order(a, c, rules) < 0,
    decreases rules.len(),
{
    if rules.len() == 0 {
        assert(a =~= b);
    } else {
        lemma_sort_value_order(a[0], b[0], c[0], rules[0]);
        lemma_sort_value_order(b[0], a[0], c[0], rules[0]);
        lemma_sort_value_order(a[0], c[0], b[0], rules[0]);
        lemma_sort_value_order(b[0], c[0], a[0], rules[0]);
        lemma_sort_value_order(c[0], a[0], b[0], rules[0]);
        let ta = a.subrange(1, a.len() as int);
        let tb = b.subrange(1, b.len() as int);
        let tc = c.subrange(1, c.len() as int);
        lemma_values_lex_order(ta, tb, tc, rules.subrange(1, rules.len() as int));
        if a[0] == b[0] && ta == tb {
            assert(a =~= seq![a[0]] + ta);
            assert(b =~= seq![b[0]] + tb);
        }
        if a == b {
            assert(a[0] == b[0]);
            assert(ta =~= tb);
        }
    }
}

/// The position order is antisymmetric, zero exactly on equal positions, and
/// transitive: a strict total order on positions with equal-length values.
pub proof fn lemma_position_order(
    a: (Seq<Option<ValueModel>>, Seq<u8>),
    b: (Seq<Option<ValueModel>>, Seq<u8>),
    c: (Seq<Option<ValueModel>>, Seq<u8>),
    rules: Seq<(SortDirection, NullPlacement)>,
)
    requires
        a.0.len() == rules.len(),
        b.0.len() == rules.len(),
        c.0.len() == rules.len(),
    ensures
        position_order(a, b, rules) == -position_order(b, a, rules),
        (position_order(a, b, rules) == 0) == (a == b),
        position_order(a, b, rules) < 0 && position_order(b, c, rules) < 0 ==> position_order(
            a,
            c,
            rules,
        ) < 0,
{
    lemma_values_lex_order(a.0, b.0, c.0, rules);
    lemma_values_lex_order(b.0, c.0, a.0, rules);
    lemma_values_lex_order(a.0, c.0, b.0, rules);
    crate::value::lemma_bytes_order_antisym(a.1, b.1);
    crate::value::lemma_bytes_order_antisym(b.1, c.1);
    crate::value::lemma_bytes_order_antisym(a.1, c.1);
    if crate::value::bytes_order(a.1, b.1) <= 0 && crate::value::bytes_order(b.1, c.1) <= 0 {
        crate::value::lemma_bytes_order_trans(a.1, b.1, c.1);
    }
}

pub(crate) fn optional_resolved_sort_value<'a>(path: &FieldPath, root: &'a Value) -> (r: Option<&'a Value>)
    ensures
        match r {
            Some(v) => normalized(resolve_model(model_of(*root), path@)) == Some(model_of(*v)),
            None => normalized(resolve_model(model_of(*root), path@)) is None,
        },
{
    match path.resolve(root) {
        Some(Value::Null) => None,
        other => other,
    }
}

fn compare_sort_values(
    left: Option<&Value>,
    right: Option<&Value>,
    field: &SortField,
) -> (r: Comparison)
    ensures
        r.sign() == sort_value_order(
            match left {
                Some(v) => Some(model_of(*v)),
                None => None,
            },
            match right {
                Some(v) => Some(model_of(*v)),
                None => None,
            },
            field_rule(*field),
        ),
{
    match (left, right) {
        (None, None) => Comparison::Equal,
        (None, Some(_)) => match field.nulls {
            NullPlacement::First => Comparison::Less,
            NullPlacement::Last => Comparison::Greater,
        },
        (Some(_), None) => match field.nulls {
            NullPlacement::First => Comparison::Greater,
            NullPlacement::Last => Comparison::Less,
        },
        (Some(l), Some(r)) => match field.direction {
            SortDirection::Ascending => compare_values(l, r),
            SortDirection::Descending => compare_values(r, l),
        },
    }
}

pub(crate) proof fn lemma_lex_step(
    a: Seq<Option<ValueModel>>,
    b: Seq<Option<ValueModel>>,
    rules: Seq<(SortDirection, NullPlacement)>,
    i: int,
)
    requires
        0 <= i < rules.len(),
        a.len() == rules.len(),
        b.len() == rules.len(),
    ensures
        values_lex_order(
            a.subrange(i, a.len() as int),
            b.subrange(i, b.len() as int),
            rules.subrange(i, rules.len() as int),
        ) == {
            let head = sort_value_order(a[i], b[i], rules[i]);
            if head != 0 {
                head
            } else {
                values_lex_order(
                    a.subrange(i + 1, a.len() as int),
                    b.subrange(i + 1, b.len() as int),
                    rules.subrange(i + 1, rules.len() as int),
                )
            }
        },
{
    let sa = a.subrange(i, a.len() as int);
    let sb = b.subrange(i, b.len() as int);
    let sr = rules.subrange(i, rules.len() as int);
    assert(sa[0] == a[i]);
    assert(sb[0] == b[i]);
    assert(sr[0] == rules[i]);
    assert(sa.subrange(1, sa.len() as int) =~= a.subrange(i + 1, a.len() as int));
    assert(sb.subrange(1, sb.len() as int) =~= b.subrange(i + 1, b.len() as int));
    assert(sr.subrange(1, sr.len() as int) =~= rules.subrange(i + 1, rules.len() as int));
}

/// Compares two records under the sort plan, then by binary key.
pub fn compare_records(left: &Record, right: &Record, sort: &Vec<SortField>) -> (r: Comparison)
    ensures
        r.sign() == record_order(*left, *right, sort@),
{
    let ghost a = sort_values_of(model_of(left.value), sort@);
    let ghost b = sort_values_of(model_of(right.value), sort@);
    let ghost rules = sort_rules(sort@);
    let mut i: usize = 0;
    proof {
        assert(a.subrange(0, a.len() as int) =~= a);
        assert(b.subrange(0, b.len() as int) =~= b);
        assert(rules.subrange(0, rules.len() as int) =~= rules);
    }
    while i < sort.len()
        invariant
            i <= sort@.len(),
            a == sort_values_of(model_of(left.value), sort@),
            b == sort_values_of(model_of(right.value), sort@),
            rules == sort_rules(sort@),
            values_lex_order(a, b, rules) == values_lex_order(
                a.subrange(i as int, a.len() as int),
                b.subrange(i as int, b.len() as int),
                rules.subrange(i as int, rules.len() as int),
            ),
        decreases sort@.len() - i,
    {
        let field = &sort[i];
        let lv = optional_resolved_sort_value(&field.path, &left.value);
        let rv = optional_resolved_sort_value(&field.path, &right.value);
        let order = compare_sort_values(lv, rv, field);
        proof {
            lemma_lex_step(a, b, rules, i as int);
        }
        match order {
            Comparison::Equal => {},
            _ => {
                return order;
            },
        }
        i = i + 1;
    }
    proof {
        assert(a.subrange(i as int, a.len() as int).len() == 0);
    }
    crate::value::compare_bytes(left.key.as_slice(), right.key.as_slice())
}

/// Compares a record with a cursor position.
pub fn compare_record_to_cursor(record: &Record, cursor: &Cursor, sort: &Vec<SortField>) -> (r: Comparison)
    requires
        cursor.sort_values@.len() == sort@.len(),
    ensures
        r.sign() == position_order(record_position(*record, sort@), cursor_position(*cursor), sort_rules(sort@)),
{
    let ghost a = sort_values_of(model_of(record.value), sort@);
    let ghost b = option_models(cursor.sort_values@);
    let ghost rules = sort_rules(sort@);
    let mut i: usize = 0;
    proof {
        assert(a.subrange(0, a.len() as int) =~= a);
        assert(b.subrange(0, b.len() as int) =~= b);
        assert(rules.subrange(0, rules.len() as int) =~= rules);
    }
    while i < sort.len()
        invariant
            i <= sort@.len(),
            cursor.sort_values@.len() == sort@.len(),
            a == sort_values_of(model_of(record.value), sort@),
            b == option_models(cursor.sort_values@),
            rules == sort_rules(sort@),
            values_lex_order(a, b, rules) == values_lex_order(
                a.subrange(i as int, a.len() as int),
                b.subrange(i as int, b.len() as int),
                rules.subrange(i as int, rules.len() as int),
            ),
        decreases sort@.len() - i,
    {
        let field = &sort[i];
        let lv = optional_resolved_sort_value(&field.path, &record.value);
        let rv = match &cursor.sort_values[i] {
            Some(v) => Some(v),
            None => None,
        };
        let order = compare_sort_values(lv, rv, field);
        proof {
            lemma_lex_step(a, b, rules, i as int);
        }
        match order {
            Comparison::Equal => {},
            _ => {
                return order;
            },
        }
        i = i + 1;
    }
    proof {
        assert(a.subrange(i as int, a.len() as int).len() == 0);
    }
    crate::value::compare_bytes(record.key.as_slice(), cursor.key.as_slice())
}

// ---------------------------------------------------------------------------
// Scanning.

/// The readings a clock has returned, oldest first.
pub type ClockReadings = Seq<u128>;

/// Injectable monotonic clock used to make timeout semantics testable.
pub trait MonotonicClock {
    /// Every reading this clock has returned, oldest first.
    spec fn readings(&self) -> Seq<u128>;

    /// Returns a nondecreasing duration, in nanoseconds, in an arbitrary
    /// local epoch, and records it as the clock's latest reading.
    fn now(&mut self) -> (r: u128)
        ensures
            final(self).readings() == old(self).readings().push(r),
    ;
}

/// `after` is `before` followed by further readings.
pub open spec fn extends(before: Seq<u128>, after: Seq<u128>) -> bool {
    before.len() <= after.len() && after.subrange(0, before.len() as int) == before
}

/// One of the readings taken after `before` reached `deadline`.
pub open spec fn reached_since(before: Seq<u128>, after: Seq<u128>, deadline: u128) -> bool {
    exists|i: int| before.len() <= i < after.len() && after[i] >= deadline
}

/// `start + timeout`, saturating at the largest reading.
pub open spec fn deadline_after(start: u128, timeout: u128) -> u128 {
    if start + timeout > u128::MAX {
        u128::MAX
    } else {
        (start + timeout) as u128
    }
}

pub proof fn lemma_extends_trans(a: Seq<u128>, b: Seq<u128>, c: Seq<u128>)
    requires
        extends(a, b),
        extends(b, c),
    ensures
        extends(a, c),
{
    assert(c.subrange(0, a.len() as int) =~= c.subrange(0, b.len() as int).subrange(0, a.len() as int));
}

pub proof fn lemma_reached_widen(a: Seq<u128>, b: Seq<u128>, c: Seq<u128>, deadline: u128)
    requires
        extends(a, b),
        extends(b, c),
        reached_since(b, c, deadline),
    ensures
        reached_since(a, c, deadline),
{
    let i = choose|i: int| b.len() <= i < c.len() && c[i] >= deadline;
}

pub proof fn lemma_reached_extend(a: Seq<u128>, b: Seq<u128>, c: Seq<u128>, deadline: u128)
    requires
        extends(a, b),
        extends(b, c),
        reached_since(a, b, deadline),
    ensures
        reached_since(a, c, deadline),
{
    let i = choose|i: int| a.len() <= i < b.len() && b[i] >= deadline;
    assert(c.subrange(0, b.len() as int)[i] == c[i]);
}

/// After the readings of `before`, a first reading was taken, and a later
/// one reached that first reading plus `timeout`.
pub open spec fn timed_out_since(before: Seq<u128>, after: Seq<u128>, timeout: u128) -> bool {
    &&& before.len() < after.len()
    &&& exists|i: int|
        before.len() < i < after.len() && #[trigger] after[i] >= deadline_after(after[before.len() as int], timeout)
}

pub proof fn lemma_timed_out(start: Seq<u128>, first: Seq<u128>, fin: Seq<u128>, started: u128, timeout: u128)
    requires
        first == start.push(started),
        extends(first, fin),
        reached_since(first, fin, deadline_after(started, timeout)),
    ensures
        timed_out_since(start, fin, timeout),
{
    assert(fin.subrange(0, first.len() as int)[start.len() as int] == fin[start.len() as int]);
    let i = choose|i: int| first.len() <= i < fin.len() && fin[i] >= deadline_after(started, timeout);
}

/// Fails with `TimedOut` exactly when the reading it takes reaches the
/// deadline.
pub fn check_timeout<C: MonotonicClock>(clock: &mut C, deadline: u128) -> (r: Result<(), QueryError>)
    ensures
        final(clock).readings().len() == old(clock).readings().len() + 1,
        extends(old(clock).readings(), final(clock).readings()),
        r is Ok || r == Err::<(), QueryError>(QueryError::TimedOut),
        r is Err <==> final(clock).readings().last() >= deadline,
        deadline == 0 ==> r == Err::<(), QueryError>(QueryError::TimedOut),
{
    let ghost before = clock.readings();
    let n = clock.now();
    proof {
        assert(clock.readings().subrange(0, before.len() as int) =~= before);
    }
    if n >= deadline {
        Err(QueryError::TimedOut)
    } else {
        Ok(())
    }
}

/// Every record of every shard, in shard order.
pub open spec fn all_records(shards: Seq<&[Record]>) -> Seq<Record>
    decreases shards.len(),
{
    if shards.len() == 0 {
        Seq::empty()
    } else {
        all_records(shards.subrange(0, shards.len() - 1)) + shards[shards.len() - 1]@
    }
}

/// Whether a record matches the query filter.
pub open spec fn record_matches(query: Query, r: Record) -> bool {
    filter_holds(query.filter, model_of(r.value))
}

/// The matching records among the first `k` records, in scan order.
pub open spec fn matched_prefix(all: Seq<Record>, query: Query, k: int) -> Seq<Record>
    decreases k,
{
    if k <= 0 {
        Seq::empty()
    } else if record_matches(query, all[k - 1]) {
        matched_prefix(all, query, k - 1).push(all[k - 1])
    } else {
        matched_prefix(all, query, k - 1)
    }
}

/// The failure that scanning record `k` raises, assuming no earlier record
/// raised one.
pub open spec fn scan_fault(all: Seq<Record>, query: Query, limits: ExecutionLimits, k: int) -> Option<
    QueryError,
> {
    if k >= limits.max_scanned_records {
        Some(QueryError::ScannedBudgetExceeded { maximum: limits.max_scanned_records })
    } else if all[k].key@.len() == 0 {
        Some(QueryError::EmptyRecordKey)
    } else if exists|j: int| 0 <= j < k && #[trigger] all[j].key@ == all[k].key@ {
        Some(QueryError::DuplicateRecordKey)
    } else if record_matches(query, all[k]) && matched_prefix(all, query, k).len()
        >= limits.max_matched_records {
        Some(QueryError::MatchedBudgetExceeded { maximum: limits.max_matched_records })
    } else {
        None
    }
}

/// Record `k` is the first one whose scan fails.
pub open spec fn is_first_fault(all: Seq<Record>, query: Query, limits: ExecutionLimits, k: int) -> bool {
    &&& 0 <= k < all.len()
    &&& scan_fault(all, query, limits, k) is Some
    &&& forall|j: int| 0 <= j < k ==> #[trigger] scan_fault(all, query, limits, j) is None
}

/// The failure of the global scan, if any record raises one.
pub open spec fn scan_error(all: Seq<Record>, query: Query, limits: ExecutionLimits) -> Option<
    QueryError,
> {
    if exists|k: int| is_first_fault(all, query, limits, k) {
        scan_fault(all, query, limits, choose|k: int| is_first_fault(all, query, limits, k))
    } else {
        None
    }
}

pub(crate) proof fn lemma_first_fault_unique(all: Seq<Record>, query: Query, limits: ExecutionLimits, k: int)
    requires
        is_first_fault(all, query, limits, k),
    ensures
        scan_error(all, query, limits) == scan_fault(all, query, limits, k),
{
    let c = choose|c: int| is_first_fault(all, query, limits, c);
    assert(is_first_fault(all, query, limits, c));
    if c < k {
        assert(scan_fault(all, query, limits, c) is None);
    }
    if c > k {
        assert(scan_fault(all, query, limits, k) is None);
    }
}

pub(crate) proof fn lemma_all_records_step(shards: Seq<&[Record]>, s: int)
    requires
        0 <= s < shards.len(),
    ensures
        all_records(shards.subrange(0, s + 1)) == all_records(shards.subrange(0, s)) + shards[s]@,
{
    let t = shards.subrange(0, s + 1);
    assert(t.subrange(0, t.len() - 1) =~= shards.subrange(0, s));
}

/// A strictly byte-ordered sequence of keys.
pub open spec fn keys_sorted(keys: Seq<&[u8]>) -> bool {
    forall|i: int, j: int|
        0 <= i < j < keys.len() ==> crate::value::bytes_order(#[trigger] keys[i]@, #[trigger] keys[j]@) < 0
}

/// Binary search in a strictly sorted key list: `(found, insertion point)`.
pub(crate) fn search_key(keys: &Vec<&[u8]>, key: &[u8]) -> (r: (bool, usize))
    requires
        keys_sorted(keys@),
    ensures
        r.1 <= keys@.len(),
        r.0 == exists|i: int| 0 <= i < keys@.len() && #[trigger] keys@[i]@ == key@,
        !r.0 ==> forall|i: int| 0 <= i < r.1 ==> crate::value::bytes_order(#[trigger] keys@[i]@, key@) < 0,
        !r.0 ==> forall|i: int| r.1 <= i < keys@.len() ==> crate::value::bytes_order(key@, #[trigger] keys@[i]@) < 0,
{
    let mut lo: usize = 0;
    let mut hi: usize = keys.len();
    while lo < hi
        invariant
            keys_sorted(keys@),
            lo <= hi <= keys@.len(),
            forall|i: int| 0 <= i < lo ==> crate::value::bytes_order(#[trigger] keys@[i]@, key@) < 0,
            forall|i: int| hi <= i < keys@.len() ==> crate::value::bytes_order(key@, #[trigger] keys@[i]@) < 0,
        decreases hi - lo,
    {
        let mid = lo + (hi - lo) / 2;
        let order = crate::value::compare_bytes(keys[mid], key);
        proof {
            crate::value::lemma_bytes_order_antisym(keys@[mid as int]@, key@);
        }
        match order {
            Comparison::Less => {
                proof {
                    assert forall|i: int| 0 <= i < mid + 1 implies crate::value::bytes_order(#[trigger] keys@[i]@, key@) < 0 by {
                        if i < mid {
                            crate::value::lemma_bytes_order_antisym(keys@[i]@, keys@[mid as int]@);
                            crate::value::lemma_bytes_order_trans(keys@[i]@, keys@[mid as int]@, key@);
                        }
                    }
                }
                lo = mid + 1;
            },
            Comparison::Greater => {
                proof {
                    assert forall|i: int| mid <= i < keys@.len() implies crate::value::bytes_order(key@, #[trigger] keys@[i]@) < 0 by {
                        if i > mid {
                            crate::value::lemma_bytes_order_antisym(key@, keys@[mid as int]@);
                            crate::value::lemma_bytes_order_trans(key@, keys@[mid as int]@, keys@[i]@);
                        }
                    }
                }
                hi = mid;
            },
            Comparison::Equal => {
                return (true, mid);
            },
        }
    }
    proof {
        assert forall|i: int| 0 <= i < keys@.len() implies #[trigger] keys@[i]@ != key@ by {
            crate::value::lemma_bytes_order_antisym(keys@[i]@, key@);
        }
    }
    (false, lo)
}

} // verus!
