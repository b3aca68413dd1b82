//! Global and grouped aggregation over the sorted matched records.
use vstd::prelude::*;

use crate::query::{
    check_timeout, extends, lemma_extends_trans, reached_since, GroupResult, AggregationResult, MonotonicClock, NamedMetricValue, lemma_values_lex_order, option_models, values_lex_order, AggregationPlan, Metric,
    NullPlacement, QueryError, Record, SortDirection, MetricValue,
};
use crate::value::{
    compare_values, model_of, model_order, resolve_model, Comparison, FieldPath, Value,
    ValueModel,
};

verus! {

// ---------------------------------------------------------------------------
// Group keys.

/// Group keys compare element-wise: a missing value first, then the value
/// order.
pub open spec fn key_rules(n: nat) -> Seq<(SortDirection, NullPlacement)> {
    Seq::new(n, |i: int| (SortDirection::Ascending, NullPlacement::First))
}

/// Order of two group keys of equal length.
pub open spec fn key_order(a: Seq<Option<ValueModel>>, b: Seq<Option<ValueModel>>) -> int {
    values_lex_order(a, b, key_rules(a.len()))
}

/// The group key of a record value: one resolved value per group path.
pub open spec fn group_key(plan: AggregationPlan, root: ValueModel) -> Seq<Option<ValueModel>> {
    Seq::new(plan.group_by@.len(), |i: int| resolve_model(root, plan.group_by@[i]@))
}

/// The value models of records, in order.
pub open spec fn roots_of(records: Seq<&Record>) -> Seq<ValueModel> {
    Seq::new(records.len(), |i: int| model_of(records[i].value))
}

/// The values among the first `n` whose group key is `key`, in order.
pub open spec fn members(
    roots: Seq<ValueModel>,
    plan: AggregationPlan,
    key: Seq<Option<ValueModel>>,
    n: int,
) -> Seq<ValueModel>
    decreases n,
{
    if n <= 0 {
        Seq::empty()
    } else if group_key(plan, roots[n - 1]) == key {
        members(roots, plan, key, n - 1).push(roots[n - 1])
    } else {
        members(roots, plan, key, n - 1)
    }
}

/// The groups that exist after the first `n` values: an ungrouped plan
/// always has its one empty-key group.
pub open spec fn seen_keys(roots: Seq<ValueModel>, plan: AggregationPlan, n: int) -> Set<
    Seq<Option<ValueModel>>,
>
    decreases n,
{
    if n <= 0 {
        if plan.group_by@.len() == 0 {
            Set::empty().insert(Seq::empty())
        } else {
            Set::empty()
        }
    } else {
        seen_keys(roots, plan, n - 1).insert(group_key(plan, roots[n - 1]))
    }
}

// ---------------------------------------------------------------------------
// Metrics.

/// Mathematical model of a metric value.
pub enum MetricModel {
    Count(int),
    Integer(Option<int>),
    Value(Option<ValueModel>),
}

/// The model of a metric value.
pub open spec fn metric_value_model(v: MetricValue) -> MetricModel {
    match v {
        MetricValue::Count(c) => MetricModel::Count(c as int),
        MetricValue::Integer(s) => MetricModel::Integer(
            match s {
                Some(x) => Some(x as int),
                None => None,
            },
        ),
        MetricValue::Value(v) => MetricModel::Value(
            match v {
                Some(x) => Some(model_of(x)),
                None => None,
            },
        ),
    }
}

/// A metric before any value was seen.
pub open spec fn metric_initial(metric: Metric) -> MetricModel {
    match metric {
        Metric::Count => MetricModel::Count(0),
        Metric::Sum(_) => MetricModel::Integer(None),
        Metric::Min(_) => MetricModel::Value(None),
        Metric::Max(_) => MetricModel::Value(None),
    }
}

/// Keeps the candidate when it is non-null and orders `desired` against the
/// current extreme (or there is none yet).
pub open spec fn extreme_step(state: MetricModel, candidate: Option<ValueModel>, desired: int) -> MetricModel {
    match candidate {
        Some(ValueModel::Null) => state,
        Some(c) => match state {
            MetricModel::Value(None) => MetricModel::Value(Some(c)),
            MetricModel::Value(Some(current)) => if model_order(c, current) == desired {
                MetricModel::Value(Some(c))
            } else {
                state
            },
            _ => state,
        },
        None => state,
    }
}

/// A metric after one more value.
pub open spec fn metric_step(metric: Metric, state: MetricModel, root: ValueModel) -> MetricModel {
    match metric {
        Metric::Count => match state {
            MetricModel::Count(n) => MetricModel::Count(n + 1),
            _ => state,
        },
        Metric::Sum(path) => match (resolve_model(root, path@), state) {
            (Some(ValueModel::Integer(v)), MetricModel::Integer(s)) => MetricModel::Integer(
                Some(
                    match s {
                        Some(x) => x + v,
                        None => v,
                    },
                ),
            ),
            _ => state,
        },
        Metric::Min(path) => extreme_step(state, resolve_model(root, path@), -1),
        Metric::Max(path) => extreme_step(state, resolve_model(root, path@), 1),
    }
}

/// A metric over a sequence of values, in order.
pub open spec fn metric_over(metric: Metric, roots: Seq<ValueModel>) -> MetricModel
    decreases roots.len(),
{
    if roots.len() == 0 {
        metric_initial(metric)
    } else {
        metric_step(metric, metric_over(metric, roots.drop_last()), roots.last())
    }
}

/// A sum metric meets a resolved value that is neither null nor an integer.
pub open spec fn sum_mismatch(metric: Metric, root: ValueModel) -> bool {
    match metric {
        Metric::Sum(path) => match resolve_model(root, path@) {
            Some(ValueModel::Null) => false,
            Some(ValueModel::Integer(_)) => false,
            Some(_) => true,
            None => false,
        },
        _ => false,
    }
}

/// The first type mismatch among the first `n` metrics for one value.
pub open spec fn metrics_error(metrics: Seq<crate::query::NamedMetric>, root: ValueModel, n: int) -> Option<
    QueryError,
>
    decreases n,
{
    if n <= 0 {
        None
    } else {
        let earlier = metrics_error(metrics, root, n - 1);
        if earlier is Some {
            earlier
        } else if sum_mismatch(metrics[n - 1].metric, root) {
            Some(QueryError::MetricTypeMismatch { name: metrics[n - 1].name })
        } else {
            None
        }
    }
}

proof fn lemma_metrics_error_kind(metrics: Seq<crate::query::NamedMetric>, root: ValueModel, n: int)
    ensures
        metrics_error(metrics, root, n) matches Some(e) ==> e is MetricTypeMismatch,
    decreases n,
{
    if n > 0 {
        lemma_metrics_error_kind(metrics, root, n - 1);
    }
}

// ---------------------------------------------------------------------------
// Failures and results.

/// The failure that aggregating value `n` raises, assuming no earlier value
/// raised one: a new group beyond the budget, else a sum type mismatch.
pub open spec fn agg_fault(roots: Seq<ValueModel>, plan: AggregationPlan, max_groups: usize, n: int) -> Option<
    QueryError,
> {
    let seen = seen_keys(roots, plan, n);
    if !seen.contains(group_key(plan, roots[n])) && seen.len() >= max_groups {
        Some(QueryError::GroupBudgetExceeded { maximum: max_groups })
    } else {
        metrics_error(plan.metrics@, roots[n], plan.metrics@.len() as int)
    }
}

/// Value `k` is the first whose aggregation fails.
pub open spec fn is_first_agg_fault(roots: Seq<ValueModel>, plan: AggregationPlan, max_groups: usize, k: int) -> bool {
    &&& 0 <= k < roots.len()
    &&& agg_fault(roots, plan, max_groups, k) is Some
    &&& forall|j: int| 0 <= j < k ==> #[trigger] agg_fault(roots, plan, max_groups, j) is None
}

/// The failure of the aggregation, if any. An ungrouped plan needs room for
/// its one group before any value is seen.
pub open spec fn agg_error(roots: Seq<ValueModel>, plan: AggregationPlan, max_groups: usize) -> Option<QueryError> {
    if plan.group_by@.len() == 0 && max_groups == 0 {
        Some(QueryError::GroupBudgetExceeded { maximum: max_groups })
    } else if exists|k: int| is_first_agg_fault(roots, plan, max_groups, k) {
        agg_fault(roots, plan, max_groups, choose|k: int| is_first_agg_fault(roots, plan, max_groups, k))
    } else {
        None
    }
}

/// The key model of a result group.
pub open spec fn group_key_model(g: crate::query::GroupResult) -> Seq<Option<ValueModel>> {
    option_models(g.key@)
}

/// A result group holds, in plan order, each metric over its members.
pub open spec fn group_matches(g: crate::query::GroupResult, roots: Seq<ValueModel>, plan: AggregationPlan) -> bool {
    &&& g.metrics@.len() == plan.metrics@.len()
    &&& forall|m: int|
        0 <= m < plan.metrics@.len() ==> (#[trigger] g.metrics@[m]).name@ == plan.metrics@[m].name@
            && metric_value_model(g.metrics@[m].value) == metric_over(
            plan.metrics@[m].metric,
            members(roots, plan, group_key_model(g), roots.len() as int),
        )
}

/// The aggregation result over the values `roots`: one group per distinct
/// key, in strictly increasing key order, each with its metrics.
pub open spec fn aggregation_matches(
    res: crate::query::AggregationResult,
    roots: Seq<ValueModel>,
    plan: AggregationPlan,
) -> bool {
    let groups = res.groups@;
    &&& res.grouped == (plan.group_by@.len() > 0)
    &&& forall|i: int, j: int|
        0 <= i < j < groups.len() ==> key_order(
            group_key_model(#[trigger] groups[i]),
            group_key_model(#[trigger] groups[j]),
        ) < 0
    &&& forall|k: Seq<Option<ValueModel>>|
        seen_keys(roots, plan, roots.len() as int).contains(k) <==> exists|j: int|
            0 <= j < groups.len() && group_key_model(#[trigger] groups[j]) == k
    &&& forall|j: int| 0 <= j < groups.len() ==> group_matches(#[trigger] groups[j], roots, plan)
}


// ---------------------------------------------------------------------------
// Executable helpers.

/// Resolved values stay within these bounds after `limit` values.
pub open spec fn bounded(m: MetricModel, limit: int) -> bool {
    match m {
        MetricModel::Count(c) => 0 <= c <= limit,
        MetricModel::Integer(Some(x)) => -limit * 0x8000_0000_0000_0000 <= x <= limit
            * 0x7fff_ffff_ffff_ffff,
        _ => true,
    }
}

fn duplicate_optional(v: Option<&Value>) -> (r: Option<Value>)
    ensures
        match (v, r) {
            (Some(a), Some(b)) => model_of(*a) == model_of(b),
            (None, None) => true,
            _ => false,
        },
{
    match v {
        Some(x) => Some(x.duplicate()),
        None => None,
    }
}

fn duplicate_metric(v: &MetricValue) -> (r: MetricValue)
    ensures
        metric_value_model(r) == metric_value_model(*v),
{
    match v {
        MetricValue::Count(c) => MetricValue::Count(*c),
        MetricValue::Integer(s) => MetricValue::Integer(*s),
        MetricValue::Value(x) => MetricValue::Value(
            match x {
                Some(y) => Some(y.duplicate()),
                None => None,
            },
        ),
    }
}

/// The group key of one record value.
fn group_key_of(plan: &AggregationPlan, root: &Value) -> (r: Vec<Option<Value>>)
    ensures
        option_models(r@) == group_key(*plan, model_of(*root)),
{
    let mut key: Vec<Option<Value>> = Vec::new();
    let mut i: usize = 0;
    while i < plan.group_by.len()
        invariant
            i <= plan.group_by@.len(),
            key@.len() == i,
            forall|j: int|
                0 <= j < i ==> match #[trigger] key@[j] {
                    Some(x) => resolve_model(model_of(*root), plan.group_by@[j]@) == Some(model_of(x)),
                    None => resolve_model(model_of(*root), plan.group_by@[j]@) is None,
                },
        decreases plan.group_by@.len() - i,
    {
        let v = duplicate_optional(plan.group_by[i].resolve(root));
        key.push(v);
        i = i + 1;
    }
    proof {
        assert(option_models(key@) =~= group_key(*plan, model_of(*root)));
    }
    key
}

/// Compares two group keys of equal length.
fn compare_keys(a: &Vec<Option<Value>>, b: &Vec<Option<Value>>) -> (r: Comparison)
    requires
        a@.len() == b@.len(),
    ensures
        r.sign() == key_order(option_models(a@), option_models(b@)),
{
    let ghost ma = option_models(a@);
    let ghost mb = option_models(b@);
    let ghost rules = key_rules(ma.len());
    let mut i: usize = 0;
    proof {
        assert(ma.subrange(0, ma.len() as int) =~= ma);
        assert(mb.subrange(0, mb.len() as int) =~= mb);
        assert(rules.subrange(0, rules.len() as int) =~= rules);
    }
    while i < a.len()
        invariant
            i <= a@.len(),
            a@.len() == b@.len(),
            ma == option_models(a@),
            mb == option_models(b@),
            rules == key_rules(ma.len()),
            values_lex_order(ma, mb, rules) == values_lex_order(
                ma.subrange(i as int, ma.len() as int),
                mb.subrange(i as int, mb.len() as int),
                rules.subrange(i as int, rules.len() as int),
            ),
        decreases a@.len() - i,
    {
        let order = match (&a[i], &b[i]) {
            (None, None) => Comparison::Equal,
            (None, Some(_)) => Comparison::Less,
            (Some(_), None) => Comparison::Greater,
            (Some(x), Some(y)) => compare_values(x, y),
        };
        proof {
            crate::query::lemma_lex_step(ma, mb, rules, i as int);
        }
        match order {
            Comparison::Equal => {},
            _ => {
                return order;
            },
        }
        i = i + 1;
    }
    Comparison::Equal
}

/// The key models of a group list.
pub open spec fn key_models(keys: Seq<Vec<Option<Value>>>, j: int) -> Seq<Option<ValueModel>> {
    option_models(keys[j]@)
}

/// Group keys of length `n` in strictly increasing key order.
pub open spec fn group_keys_sorted(keys: Seq<Vec<Option<Value>>>, n: nat) -> bool {
    &&& forall|j: int| 0 <= j < keys.len() ==> (#[trigger] keys[j])@.len() == n
    &&& forall|i: int, j: int|
        0 <= i < j < keys.len() ==> key_order(
            option_models(#[trigger] keys[i]@),
            option_models(#[trigger] keys[j]@),
        ) < 0
}

proof fn lemma_key_order(a: Seq<Option<ValueModel>>, b: Seq<Option<ValueModel>>, c: Seq<Option<ValueModel>>)
    requires
        a.len() == b.len(),
        b.len() == c.len(),
    ensures
        key_order(a, b) == -key_order(b, a),
        (key_order(a, b) == 0) == (a == b),
        key_order(a, b) < 0 && key_order(b, c) < 0 ==> key_order(a, c) < 0,
{
    assert(key_rules(a.len()) =~= key_rules(b.len()));
    lemma_values_lex_order(a, b, c, key_rules(a.len()));
    lemma_values_lex_order(b, a, c, key_rules(a.len()));
}

/// Binary search for a group key: `(found, position)`.
fn search_group(keys: &Vec<Vec<Option<Value>>>, key: &Vec<Option<Value>>) -> (r: (bool, usize))
    requires
        group_keys_sorted(keys@, key@.len()),
    ensures
        r.1 <= keys@.len(),
        r.0 ==> r.1 < keys@.len() && option_models(keys@[r.1 as int]@) == option_models(key@),
        !r.0 ==> forall|i: int| 0 <= i < r.1 ==> key_order(option_models(#[trigger] keys@[i]@), option_models(key@)) < 0,
        !r.0 ==> forall|i: int| r.1 <= i < keys@.len() ==> key_order(option_models(key@), option_models(#[trigger] keys@[i]@)) < 0,
{
    let mut lo: usize = 0;
    let mut hi: usize = keys.len();
    while lo < hi
        invariant
            group_keys_sorted(keys@, key@.len()),
            lo <= hi <= keys@.len(),
            forall|i: int| 0 <= i < lo ==> key_order(option_models(#[trigger] keys@[i]@), option_models(key@)) < 0,
            forall|i: int| hi <= i < keys@.len() ==> key_order(option_models(key@), option_models(#[trigger] keys@[i]@)) < 0,
        decreases hi - lo,
    {
        let mid = lo + (hi - lo) / 2;
        let order = compare_keys(&keys[mid], key);
        let ghost km = option_models(keys@[mid as int]@);
        let ghost k = option_models(key@);
        proof {
            lemma_key_order(km, k, k);
        }
        match order {
            Comparison::Less => {
                proof {
                    assert forall|i: int| 0 <= i < mid + 1 implies key_order(option_models(#[trigger] keys@[i]@), k) < 0 by {
                        if i < mid {
                            lemma_key_order(option_models(keys@[i]@), km, k);
                        }
                    }
                }
                lo = mid + 1;
            },
            Comparison::Greater => {
                proof {
                    assert forall|i: int| mid <= i < keys@.len() implies key_order(k, option_models(#[trigger] keys@[i]@)) < 0 by {
                        if i > mid {
                            lemma_key_order(k, km, option_models(keys@[i]@));
                        }
                    }
                }
                hi = mid;
            },
            Comparison::Equal => {
                return (true, mid);
            },
        }
    }
    (false, lo)
}


fn initial_states(plan: &AggregationPlan) -> (r: Vec<MetricValue>)
    ensures
        r@.len() == plan.metrics@.len(),
        forall|m: int|
            0 <= m < r@.len() ==> metric_value_model(#[trigger] r@[m]) == metric_initial(
                plan.metrics@[m].metric,
            ),
{
    let mut states: Vec<MetricValue> = Vec::new();
    let mut i: usize = 0;
    while i < plan.metrics.len()
        invariant
            i <= plan.metrics@.len(),
            states@.len() == i,
            forall|m: int|
                0 <= m < i ==> metric_value_model(#[trigger] states@[m]) == metric_initial(
                    plan.metrics@[m].metric,
                ),
        decreases plan.metrics@.len() - i,
    {
        let state = match &plan.metrics[i].metric {
            Metric::Count => MetricValue::Count(0),
            Metric::Sum(_) => MetricValue::Integer(None),
            Metric::Min(_) => MetricValue::Value(None),
            Metric::Max(_) => MetricValue::Value(None),
        };
        states.push(state);
        i = i + 1;
    }
    states
}

fn sum_mismatch_of(metric: &Metric, root: &Value) -> (r: bool)
    ensures
        r == sum_mismatch(*metric, model_of(*root)),
{
    match metric {
        Metric::Sum(path) => match path.resolve(root) {
            Some(Value::Null) => false,
            Some(Value::Integer(_)) => false,
            Some(_) => true,
            None => false,
        },
        _ => false,
    }
}

proof fn lemma_metrics_error_stable(metrics: Seq<crate::query::NamedMetric>, root: ValueModel, k: int, n: int)
    requires
        0 <= k <= n,
        metrics_error(metrics, root, k) is Some,
    ensures
        metrics_error(metrics, root, n) == metrics_error(metrics, root, k),
    decreases n - k,
{
    if n > k {
        lemma_metrics_error_stable(metrics, root, k, n - 1);
    }
}

/// The first sum type mismatch of a record value, in plan order.
fn record_metric_error(plan: &AggregationPlan, root: &Value) -> (r: Option<QueryError>)
    ensures
        r == metrics_error(plan.metrics@, model_of(*root), plan.metrics@.len() as int),
{
    let mut i: usize = 0;
    while i < plan.metrics.len()
        invariant
            i <= plan.metrics@.len(),
            metrics_error(plan.metrics@, model_of(*root), i as int) is None,
        decreases plan.metrics@.len() - i,
    {
        if sum_mismatch_of(&plan.metrics[i].metric, root) {
            proof {
                lemma_metrics_error_stable(plan.metrics@, model_of(*root), i + 1, plan.metrics@.len() as int);
            }
            return Some(QueryError::MetricTypeMismatch { name: plan.metrics[i].name.clone() });
        }
        i = i + 1;
    }
    None
}

fn step_extreme(state: &MetricValue, candidate: Option<&Value>, desired: Comparison) -> (r: MetricValue)
    ensures
        metric_value_model(r) == extreme_step(
            metric_value_model(*state),
            match candidate {
                Some(c) => Some(model_of(*c)),
                None => None,
            },
            desired.sign(),
        ),
{
    match candidate {
        Some(Value::Null) => duplicate_metric(state),
        Some(c) => match state {
            MetricValue::Value(None) => MetricValue::Value(Some(c.duplicate())),
            MetricValue::Value(Some(current)) => {
                let order = compare_values(c, current);
                if order == desired {
                    MetricValue::Value(Some(c.duplicate()))
                } else {
                    duplicate_metric(state)
                }
            },
            _ => duplicate_metric(state),
        },
        None => duplicate_metric(state),
    }
}

fn step_state(metric: &Metric, state: &MetricValue, root: &Value, Ghost(limit): Ghost<int>) -> (r: MetricValue)
    requires
        0 <= limit,
        limit + 1 <= usize::MAX,
        bounded(metric_value_model(*state), limit),
    ensures
        metric_value_model(r) == metric_step(*metric, metric_value_model(*state), model_of(*root)),
        bounded(metric_value_model(r), limit + 1),
{
    match metric {
        Metric::Count => match state {
            MetricValue::Count(c) => MetricValue::Count(*c + 1),
            _ => duplicate_metric(state),
        },
        Metric::Sum(path) => match (path.resolve(root), state) {
            (Some(Value::Integer(v)), MetricValue::Integer(s)) => {
                let total: i128 = match s {
                    Some(x) => *x + (*v as i128),
                    None => *v as i128,
                };
                MetricValue::Integer(Some(total))
            },
            _ => duplicate_metric(state),
        },
        Metric::Min(path) => step_extreme(state, path.resolve(root), Comparison::Less),
        Metric::Max(path) => step_extreme(state, path.resolve(root), Comparison::Greater),
    }
}

fn step_states(plan: &AggregationPlan, states: &Vec<MetricValue>, root: &Value, Ghost(limit): Ghost<int>) -> (r: Vec<MetricValue>)
    requires
        0 <= limit,
        limit + 1 <= usize::MAX,
        states@.len() == plan.metrics@.len(),
        forall|m: int| 0 <= m < states@.len() ==> bounded(metric_value_model(#[trigger] states@[m]), limit),
    ensures
        r@.len() == states@.len(),
        forall|m: int|
            0 <= m < r@.len() ==> metric_value_model(#[trigger] r@[m]) == metric_step(
                plan.metrics@[m].metric,
                metric_value_model(states@[m]),
                model_of(*root),
            ) && bounded(metric_value_model(r@[m]), limit + 1),
{
    let mut next: Vec<MetricValue> = Vec::new();
    let mut i: usize = 0;
    while i < states.len()
        invariant
            0 <= limit,
            limit + 1 <= usize::MAX,
            i <= states@.len(),
            states@.len() == plan.metrics@.len(),
            forall|m: int| 0 <= m < states@.len() ==> bounded(metric_value_model(#[trigger] states@[m]), limit),
            next@.len() == i,
            forall|m: int|
                0 <= m < i ==> metric_value_model(#[trigger] next@[m]) == metric_step(
                    plan.metrics@[m].metric,
                    metric_value_model(states@[m]),
                    model_of(*root),
                ) && bounded(metric_value_model(next@[m]), limit + 1),
        decreases states@.len() - i,
    {
        let state = step_state(&plan.metrics[i].metric, &states[i], root, Ghost(limit));
        next.push(state);
        i = i + 1;
    }
    next
}


proof fn lemma_seen_finite(roots: Seq<ValueModel>, plan: AggregationPlan, n: int)
    ensures
        seen_keys(roots, plan, n).finite(),
    decreases n,
{
    if n > 0 {
        lemma_seen_finite(roots, plan, n - 1);
    }
}

proof fn lemma_members_unseen(roots: Seq<ValueModel>, plan: AggregationPlan, key: Seq<Option<ValueModel>>, n: int)
    requires
        !seen_keys(roots, plan, n).contains(key),
    ensures
        members(roots, plan, key, n) == Seq::<ValueModel>::empty(),
    decreases n,
{
    if n > 0 {
        lemma_members_unseen(roots, plan, key, n - 1);
    }
}

proof fn lemma_first_agg_fault_unique(roots: Seq<ValueModel>, plan: AggregationPlan, max_groups: usize, k: int)
    requires
        is_first_agg_fault(roots, plan, max_groups, k),
        !(plan.group_by@.len() == 0 && max_groups == 0),
    ensures
        agg_error(roots, plan, max_groups) == agg_fault(roots, plan, max_groups, k),
{
    let c = choose|c: int| is_first_agg_fault(roots, plan, max_groups, c);
    assert(is_first_agg_fault(roots, plan, max_groups, c));
    if c < k {
        assert(agg_fault(roots, plan, max_groups, c) is None);
    }
    if c > k {
        assert(agg_fault(roots, plan, max_groups, k) is None);
    }
}

/// Group key models of a group list, at index `j`.
pub open spec fn has_key(keys: Seq<Vec<Option<Value>>>, k: Seq<Option<ValueModel>>) -> bool {
    exists|j: int| 0 <= j < keys.len() && key_models(keys, j) == k
}

/// The metric states of every group match their members among the first
/// `n` values.
pub open spec fn states_match(
    keys: Seq<Vec<Option<Value>>>,
    states: Seq<Vec<MetricValue>>,
    roots: Seq<ValueModel>,
    plan: AggregationPlan,
    n: int,
) -> bool {
    forall|j: int|
        0 <= j < keys.len() ==> (#[trigger] states[j])@.len() == plan.metrics@.len() && forall|m: int|
            0 <= m < plan.metrics@.len() ==> metric_value_model(#[trigger] states[j]@[m])
                == metric_over(plan.metrics@[m].metric, members(roots, plan, key_models(keys, j), n))
                && bounded(metric_value_model(states[j]@[m]), n)
}

fn duplicate_key(key: &Vec<Option<Value>>) -> (r: Vec<Option<Value>>)
    ensures
        option_models(r@) == option_models(key@),
{
    let mut out: Vec<Option<Value>> = Vec::new();
    let mut i: usize = 0;
    while i < key.len()
        invariant
            i <= key@.len(),
            out@.len() == i,
            forall|j: int|
                0 <= j < i ==> match (#[trigger] out@[j], key@[j]) {
                    (Some(a), Some(b)) => model_of(a) == model_of(b),
                    (None, None) => true,
                    _ => false,
                },
        decreases key@.len() - i,
    {
        let v = match &key[i] {
            Some(x) => Some(x.duplicate()),
            None => None,
        };
        out.push(v);
        i = i + 1;
    }
    proof {
        assert(option_models(out@) =~= option_models(key@));
    }
    out
}

fn named_metrics(plan: &AggregationPlan, states: &Vec<MetricValue>) -> (r: Vec<NamedMetricValue>)
    requires
        states@.len() == plan.metrics@.len(),
    ensures
        r@.len() == states@.len(),
        forall|m: int|
            0 <= m < r@.len() ==> (#[trigger] r@[m]).name@ == plan.metrics@[m].name@
                && metric_value_model(r@[m].value) == metric_value_model(states@[m]),
{
    let mut out: Vec<NamedMetricValue> = Vec::new();
    let mut i: usize = 0;
    while i < states.len()
        invariant
            i <= states@.len(),
            states@.len() == plan.metrics@.len(),
            out@.len() == i,
            forall|m: int|
                0 <= m < i ==> (#[trigger] out@[m]).name@ == plan.metrics@[m].name@
                    && metric_value_model(out@[m].value) == metric_value_model(states@[m]),
        decreases states@.len() - i,
    {
        out.push(NamedMetricValue { name: plan.metrics[i].name.clone(), value: duplicate_metric(&states[i]) });
        i = i + 1;
    }
    out
}

proof fn lemma_insert_group(
    roots: Seq<ValueModel>,
    plan: AggregationPlan,
    n: int,
    gk: Seq<Option<ValueModel>>,
    old_keys: Seq<Vec<Option<Value>>>,
    old_states: Seq<Vec<MetricValue>>,
    keys: Seq<Vec<Option<Value>>>,
    states: Seq<Vec<MetricValue>>,
    pos: int,
)
    requires
        0 <= pos <= old_keys.len(),
        old_keys.len() == old_states.len(),
        keys == old_keys.insert(pos, keys[pos]),
        states == old_states.insert(pos, states[pos]),
        option_models(keys[pos]@) == gk,
        gk.len() == plan.group_by@.len(),
        keys[pos]@.len() == plan.group_by@.len(),
        group_keys_sorted(old_keys, plan.group_by@.len()),
        forall|i: int| 0 <= i < pos ==> key_order(option_models(#[trigger] old_keys[i]@), gk) < 0,
        forall|i: int| pos <= i < old_keys.len() ==> key_order(gk, option_models(#[trigger] old_keys[i]@)) < 0,
        forall|k: Seq<Option<ValueModel>>| seen_keys(roots, plan, n).contains(k) <==> has_key(old_keys, k),
        !seen_keys(roots, plan, n).contains(gk),
        states_match(old_keys, old_states, roots, plan, n),
        states[pos]@.len() == plan.metrics@.len(),
        forall|m: int|
            0 <= m < plan.metrics@.len() ==> metric_value_model(#[trigger] states[pos]@[m]) == metric_initial(
                plan.metrics@[m].metric,
            ),
        0 <= n,
    ensures
        group_keys_sorted(keys, plan.group_by@.len()),
        forall|k: Seq<Option<ValueModel>>| seen_keys(roots, plan, n).insert(gk).contains(k) <==> has_key(keys, k),
        states_match(keys, states, roots, plan, n),
{
    let seen = seen_keys(roots, plan, n);
    lemma_members_unseen(roots, plan, gk, n);
    assert forall|i: int, j: int| 0 <= i < j < keys.len() implies key_order(
        option_models(#[trigger] keys[i]@),
        option_models(#[trigger] keys[j]@),
    ) < 0 by {
        if j < pos {
            assert(keys[i] == old_keys[i] && keys[j] == old_keys[j]);
        } else if j == pos {
            assert(keys[i] == old_keys[i]);
        } else if i == pos {
            assert(keys[j] == old_keys[j - 1]);
        } else if i < pos {
            assert(keys[i] == old_keys[i] && keys[j] == old_keys[j - 1]);
        } else {
            assert(keys[i] == old_keys[i - 1] && keys[j] == old_keys[j - 1]);
        }
    }
    assert forall|j: int| 0 <= j < keys.len() implies (#[trigger] keys[j])@.len() == plan.group_by@.len() by {
        if j < pos {
            assert(keys[j] == old_keys[j]);
        } else if j > pos {
            assert(keys[j] == old_keys[j - 1]);
        }
    }
    assert forall|k: Seq<Option<ValueModel>>| seen.insert(gk).contains(k) <==> has_key(keys, k) by {
        if has_key(keys, k) {
            let j = choose|j: int| 0 <= j < keys.len() && key_models(keys, j) == k;
            if j < pos {
                assert(keys[j] == old_keys[j]);
                assert(key_models(old_keys, j) == k);
                assert(has_key(old_keys, k));
            } else if j > pos {
                assert(keys[j] == old_keys[j - 1]);
                assert(key_models(old_keys, j - 1) == k);
                assert(has_key(old_keys, k));
            }
        }
        if seen.insert(gk).contains(k) {
            if k == gk {
                assert(key_models(keys, pos) == k);
            } else {
                assert(seen.contains(k));
                assert(has_key(old_keys, k));
                let j = choose|j: int| 0 <= j < old_keys.len() && key_models(old_keys, j) == k;
                if j < pos {
                    assert(keys[j] == old_keys[j]);
                    assert(key_models(keys, j) == k);
                } else {
                    assert(keys[j + 1] == old_keys[j]);
                    assert(key_models(keys, j + 1) == k);
                }
            }
        }
    }
    assert forall|j: int| 0 <= j < keys.len() implies (#[trigger] states[j])@.len() == plan.metrics@.len() && forall|m: int|
        0 <= m < plan.metrics@.len() ==> metric_value_model(#[trigger] states[j]@[m])
            == metric_over(plan.metrics@[m].metric, members(roots, plan, key_models(keys, j), n))
            && bounded(metric_value_model(states[j]@[m]), n) by {
        if j < pos {
            assert(keys[j] == old_keys[j] && states[j] == old_states[j]);
        } else if j > pos {
            assert(keys[j] == old_keys[j - 1] && states[j] == old_states[j - 1]);
        } else {
            assert(key_models(keys, j) == gk);
        }
    }
}

proof fn lemma_step_group(
    roots: Seq<ValueModel>,
    plan: AggregationPlan,
    n: int,
    gk: Seq<Option<ValueModel>>,
    keys: Seq<Vec<Option<Value>>>,
    mid_states: Seq<Vec<MetricValue>>,
    states: Seq<Vec<MetricValue>>,
    pos: int,
)
    requires
        0 <= n < roots.len(),
        gk == group_key(plan, roots[n]),
        0 <= pos < keys.len(),
        key_models(keys, pos) == gk,
        group_keys_sorted(keys, plan.group_by@.len()),
        keys.len() == mid_states.len(),
        states == mid_states.update(pos, states[pos]),
        states_match(keys, mid_states, roots, plan, n),
        states[pos]@.len() == plan.metrics@.len(),
        forall|m: int|
            0 <= m < plan.metrics@.len() ==> metric_value_model(#[trigger] states[pos]@[m]) == metric_step(
                plan.metrics@[m].metric,
                metric_value_model(mid_states[pos]@[m]),
                roots[n],
            ) && bounded(metric_value_model(states[pos]@[m]), n + 1),
    ensures
        states_match(keys, states, roots, plan, n + 1),
{
    let n1 = n + 1;
    assert forall|j: int| 0 <= j < keys.len() implies (#[trigger] states[j])@.len() == plan.metrics@.len() && forall|m: int|
        0 <= m < plan.metrics@.len() ==> metric_value_model(#[trigger] states[j]@[m])
            == metric_over(plan.metrics@[m].metric, members(roots, plan, key_models(keys, j), n1))
            && bounded(metric_value_model(states[j]@[m]), n1) by {
        let kj = key_models(keys, j);
        if j == pos {
            let prev = members(roots, plan, gk, n);
            assert(members(roots, plan, gk, n1) == prev.push(roots[n]));
            assert(prev.push(roots[n]).drop_last() =~= prev);
            assert forall|m: int| 0 <= m < plan.metrics@.len() implies metric_value_model(#[trigger] states[j]@[m])
                == metric_over(plan.metrics@[m].metric, members(roots, plan, kj, n1))
                && bounded(metric_value_model(states[j]@[m]), n1) by {
                assert(metric_value_model(mid_states[j]@[m]) == metric_over(plan.metrics@[m].metric, prev));
            }
        } else {
            if j < pos {
                lemma_key_order(kj, gk, gk);
            } else {
                lemma_key_order(gk, kj, gk);
            }
            assert(kj != gk);
            assert(states[j] == mid_states[j]);
            assert(members(roots, plan, kj, n1) == members(roots, plan, kj, n));
            assert forall|m: int| 0 <= m < plan.metrics@.len() implies metric_value_model(#[trigger] states[j]@[m])
                == metric_over(plan.metrics@[m].metric, members(roots, plan, kj, n1))
                && bounded(metric_value_model(states[j]@[m]), n1) by {
                assert(bounded(metric_value_model(mid_states[j]@[m]), n));
            }
        }
    }
}

/// Aggregates the sorted matched records under a validated plan.
pub(crate) fn aggregate<C: MonotonicClock>(
    records: &Vec<&Record>,
    plan: &AggregationPlan,
    max_groups: usize,
    clock: &mut C,
    deadline: u128,
) -> (r: Result<AggregationResult, QueryError>)
    ensures
        match r {
            Ok(res) => agg_error(roots_of(records@), *plan, max_groups) is None && aggregation_matches(
                res,
                roots_of(records@),
                *plan,
            ),
            Err(e) => e == QueryError::TimedOut || agg_error(roots_of(records@), *plan, max_groups)
                == Some(e),
        },
        extends(old(clock).readings(), final(clock).readings()),
        r matches Err(QueryError::TimedOut) ==> reached_since(old(clock).readings(), final(clock).readings(), deadline),
{
    let ghost roots = roots_of(records@);
    let ghost start = clock.readings();
    proof {
        assert(start.subrange(0, start.len() as int) =~= start);
    }
    let grouped = plan.group_by.len() > 0;
    let mut keys: Vec<Vec<Option<Value>>> = Vec::new();
    let mut states: Vec<Vec<MetricValue>> = Vec::new();
    if !grouped {
        if max_groups == 0 {
            return Err(QueryError::GroupBudgetExceeded { maximum: max_groups });
        }
        keys.push(Vec::new());
        states.push(initial_states(plan));
        proof {
            assert(key_models(keys@, 0) =~= Seq::<Option<ValueModel>>::empty());
            assert(seen_keys(roots, *plan, 0) =~= Set::<Seq<Option<ValueModel>>>::empty().insert(Seq::empty()));
            assert forall|k: Seq<Option<ValueModel>>| seen_keys(roots, *plan, 0).contains(k) <==> has_key(keys@, k) by {
                if seen_keys(roots, *plan, 0).contains(k) {
                    assert(key_models(keys@, 0) == k);
                }
            }
        }
    } else {
        proof {
            assert(seen_keys(roots, *plan, 0) =~= Set::<Seq<Option<ValueModel>>>::empty());
        }
    }
    proof {
        lemma_seen_finite(roots, *plan, 0);
    }
    let mut n: usize = 0;
    while n < records.len()
        invariant
            roots == roots_of(records@),
            n <= records@.len(),
            grouped == (plan.group_by@.len() > 0),
            !grouped ==> max_groups > 0,
            keys@.len() == states@.len(),
            group_keys_sorted(keys@, plan.group_by@.len()),
            seen_keys(roots, *plan, n as int).finite(),
            seen_keys(roots, *plan, n as int).len() == keys@.len(),
            forall|k: Seq<Option<ValueModel>>| seen_keys(roots, *plan, n as int).contains(k) <==> has_key(keys@, k),
            states_match(keys@, states@, roots, *plan, n as int),
            forall|i: int| 0 <= i < n ==> #[trigger] agg_fault(roots, *plan, max_groups, i) is None,
            extends(start, clock.readings()),
            start == old(clock).readings(),
        decreases records@.len() - n,
    {
        let ghost before = clock.readings();
        let checked = check_timeout(clock, deadline);
        proof {
            lemma_extends_trans(start, before, clock.readings());
            if checked is Err {
                assert(clock.readings()[clock.readings().len() - 1] >= deadline);
                assert(reached_since(start, clock.readings(), deadline));
            }
        }
        match checked {
            Ok(()) => {},
            Err(e) => {
                return Err(e);
            },
        }
        let record = records[n];
        let key = group_key_of(plan, &record.value);
        let ghost gk = group_key(*plan, roots[n as int]);
        let ghost seen = seen_keys(roots, *plan, n as int);
        assert(model_of(record.value) == roots[n as int]);
        assert(option_models(key@).len() == key@.len());
        assert(gk.len() == plan.group_by@.len());
        assert(key@.len() == plan.group_by@.len());
        let (found, pos) = search_group(&keys, &key);
        proof {
            if found {
                assert(key_models(keys@, pos as int) == gk);
                assert(has_key(keys@, gk));
                assert(seen.contains(gk));
            } else {
                if seen.contains(gk) {
                    assert(has_key(keys@, gk));
                    let j = choose|j: int| 0 <= j < keys@.len() && key_models(keys@, j) == gk;
                    lemma_key_order(gk, gk, gk);
                    if j < pos {
                        assert(key_order(option_models(keys@[j]@), option_models(key@)) < 0);
                    } else {
                        assert(key_order(option_models(key@), option_models(keys@[j]@)) < 0);
                    }
                }
                assert(!seen.contains(gk));
            }
        }
        if !found {
            if keys.len() >= max_groups {
                proof {
                    assert(agg_fault(roots, *plan, max_groups, n as int) is Some);
                    assert(is_first_agg_fault(roots, *plan, max_groups, n as int));
                    lemma_first_agg_fault_unique(roots, *plan, max_groups, n as int);
                }
                return Err(QueryError::GroupBudgetExceeded { maximum: max_groups });
            }
        }
        match record_metric_error(plan, &record.value) {
            Some(e) => {
                proof {
                    lemma_metrics_error_kind(plan.metrics@, model_of(record.value), plan.metrics@.len() as int);
                    assert(agg_fault(roots, *plan, max_groups, n as int) == Some(e));
                    assert(is_first_agg_fault(roots, *plan, max_groups, n as int));
                    lemma_first_agg_fault_unique(roots, *plan, max_groups, n as int);
                }
                return Err(e);
            },
            None => {},
        }
        assert(agg_fault(roots, *plan, max_groups, n as int) is None);
        let ghost old_keys = keys@;
        let ghost old_states = states@;
        if !found {
            proof {
                lemma_members_unseen(roots, *plan, gk, n as int);
            }
            keys.insert(pos, key);
            states.insert(pos, initial_states(plan));
            proof {
                lemma_insert_group(roots, *plan, n as int, gk, old_keys, old_states, keys@, states@, pos as int);
            }
        } else {
            proof {
                assert(seen.insert(gk) =~= seen);
                assert forall|j: int| 0 <= j < keys@.len() && j != pos implies #[trigger] key_models(keys@, j) != gk by {
                    if j < pos {
                        lemma_key_order(key_models(keys@, j), gk, gk);
                    } else {
                        lemma_key_order(gk, key_models(keys@, j), gk);
                    }
                }
            }
        }
        proof {
            lemma_seen_finite(roots, *plan, n as int);
            assert(seen_keys(roots, *plan, n as int + 1) == seen.insert(gk));
        }
        let ghost mid_keys = keys@;
        let ghost mid_states = states@;
        let new_states = step_states(plan, &states[pos], &record.value, Ghost(n as int));
        states.set(pos, new_states);
        proof {
            lemma_step_group(roots, *plan, n as int, gk, keys@, mid_states, states@, pos as int);
        }
        n = n + 1;
    }
    let mut groups: Vec<GroupResult> = Vec::new();
    let mut j: usize = 0;
    while j < keys.len()
        invariant
            roots == roots_of(records@),
            n == records@.len(),
            j <= keys@.len(),
            keys@.len() == states@.len(),
            states_match(keys@, states@, roots, *plan, n as int),
            groups@.len() == j,
            forall|i: int| 0 <= i < j ==> group_key_model(#[trigger] groups@[i]) == key_models(keys@, i)
                && group_matches(groups@[i], roots, *plan),
        decreases keys@.len() - j,
    {
        assert(states@[j as int]@.len() == plan.metrics@.len());
        let group = GroupResult { key: duplicate_key(&keys[j]), metrics: named_metrics(plan, &states[j]) };
        proof {
            assert forall|m: int| 0 <= m < plan.metrics@.len() implies (#[trigger] group.metrics@[m]).name@ == plan.metrics@[m].name@
                && metric_value_model(group.metrics@[m].value) == metric_over(
                plan.metrics@[m].metric,
                members(roots, *plan, group_key_model(group), roots.len() as int),
            ) by {
                assert(metric_value_model(states@[j as int]@[m]) == metric_over(plan.metrics@[m].metric, members(roots, *plan, key_models(keys@, j as int), n as int)));
            }
        }
        groups.push(group);
        j = j + 1;
    }
    let res = AggregationResult { grouped, groups };
    proof {
        assert forall|k: Seq<Option<ValueModel>>| seen_keys(roots, *plan, roots.len() as int).contains(k) <==> exists|j: int|
            0 <= j < res.groups@.len() && group_key_model(#[trigger] res.groups@[j]) == k by {
            if seen_keys(roots, *plan, roots.len() as int).contains(k) {
                assert(has_key(keys@, k));
                let j = choose|j: int| 0 <= j < keys@.len() && key_models(keys@, j) == k;
                assert(group_key_model(res.groups@[j]) == k);
            }
            if exists|j: int| 0 <= j < res.groups@.len() && group_key_model(#[trigger] res.groups@[j]) == k {
                let j = choose|j: int| 0 <= j < res.groups@.len() && group_key_model(#[trigger] res.groups@[j]) == k;
                assert(key_models(keys@, j) == k);
                assert(has_key(keys@, k));
            }
        }
        assert forall|a: int, b: int| 0 <= a < b < res.groups@.len() implies key_order(
            group_key_model(#[trigger] res.groups@[a]),
            group_key_model(#[trigger] res.groups@[b]),
        ) < 0 by {
            assert(group_key_model(res.groups@[a]) == key_models(keys@, a));
            assert(group_key_model(res.groups@[b]) == key_models(keys@, b));
        }
        if exists|k: int| is_first_agg_fault(roots, *plan, max_groups, k) {
            let k = choose|k: int| is_first_agg_fault(roots, *plan, max_groups, k);
            assert(agg_fault(roots, *plan, max_groups, k) is None);
        }
    }
    Ok(res)
}

} // verus!
