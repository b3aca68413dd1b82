//! Reference executor: global scan, sort, pagination and aggregation.
use vstd::prelude::*;

use crate::aggregate::{agg_error, aggregate, aggregation_matches, roots_of};
use crate::query::{
    extends, lemma_extends_trans, lemma_reached_widen, lemma_timed_out, reached_since, deadline_after,
    timed_out_since,
    normalized, optional_resolved_sort_value, all_records, check_timeout, compare_record_to_cursor, compare_records, cursor_position,
    filter_matches, is_first_fault, keys_sorted, lemma_all_records_step,
    lemma_first_fault_unique, lemma_position_order, matched_prefix, option_models,
    position_order, record_matches, record_order, record_position, scan_error, scan_fault,
    search_key, sort_rules, sort_values_of, validate_query, validation_outcome, Cursor,
    ExecutionLimits, MonotonicClock, Query, QueryError, QueryResult, Record, SortField,
};
use crate::value::{bytes_order, compare_bytes, lemma_bytes_order_antisym, lemma_bytes_order_trans, model_of, Comparison, Value, ValueModel};

verus! {

// ---------------------------------------------------------------------------
// What a complete execution computes.

/// Every record of the scan that matches the filter, in scan order.
pub open spec fn matched_records(all: Seq<Record>, query: Query) -> Seq<Record> {
    matched_prefix(all, query, all.len() as int)
}

/// `c` is the matched set in sort order: as many records as `m`, each one of
/// `m`, strictly increasing under the sort plan and the key tie-breaker.
pub open spec fn arrangement(c: Seq<&Record>, m: Seq<Record>, sort: Seq<SortField>) -> bool {
    &&& c.len() == m.len()
    &&& forall|i: int| 0 <= i < c.len() ==> m.contains(*#[trigger] c[i])
    &&& forall|i: int, j: int|
        0 <= i < j < c.len() ==> record_order(*#[trigger] c[i], *#[trigger] c[j], sort) < 0
}

/// A record sorts at or before the query cursor (always false without one).
pub open spec fn at_or_before_cursor(r: Record, query: Query) -> bool {
    match query.cursor {
        Some(c) => position_order(
            record_position(r, query.sort@),
            cursor_position(c),
            sort_rules(query.sort@),
        ) <= 0,
        None => false,
    }
}

/// Two records with the same key and the same value.
pub open spec fn same_record(a: Record, b: Record) -> bool {
    a.key@ == b.key@ && model_of(a.value) == model_of(b.value)
}

/// A cursor naming the position of a record.
pub open spec fn cursor_names(c: Cursor, r: Record, sort: Seq<SortField>) -> bool {
    option_models(c.sort_values@) == sort_values_of(model_of(r.value), sort) && c.key@ == r.key@
}

/// The page of the sorted records `c` that starts at `start`, the first
/// record after the cursor.
pub open spec fn page_at(
    rows: Seq<Record>,
    next: Option<Cursor>,
    c: Seq<&Record>,
    query: Query,
    start: int,
) -> bool {
    let remaining = c.len() - start;
    &&& 0 <= start <= c.len()
    &&& forall|i: int| 0 <= i < start ==> at_or_before_cursor(*#[trigger] c[i], query)
    &&& forall|i: int| start <= i < c.len() ==> !at_or_before_cursor(*#[trigger] c[i], query)
    &&& rows.len() == if remaining < query.limit {
        remaining
    } else {
        query.limit as int
    }
    &&& forall|i: int| 0 <= i < rows.len() ==> same_record(#[trigger] rows[i], *c[start + i])
    &&& (next is Some <==> remaining > query.limit)
    &&& next matches Some(cur) ==> cursor_names(cur, rows.last(), query.sort@)
}

/// The page of the sorted records `c` requested by the query.
pub open spec fn page_matches(rows: Seq<Record>, next: Option<Cursor>, c: Seq<&Record>, query: Query) -> bool {
    exists|start: int| page_at(rows, next, c, query, start)
}

/// `res` is the complete answer computed from the sorted matched records `c`.
pub open spec fn answer_from(res: QueryResult, all: Seq<Record>, query: Query, limits: ExecutionLimits, c: Seq<&Record>) -> bool {
    &&& arrangement(c, matched_records(all, query), query.sort@)
    &&& page_matches(res.rows@, res.next_cursor, c, query)
    &&& res.scanned_records == all.len()
    &&& res.matched_records == matched_records(all, query).len()
    &&& match query.aggregation {
        Some(plan) => agg_error(roots_of(c), plan, limits.max_groups) is None && match res.aggregation {
            Some(a) => aggregation_matches(a, roots_of(c), plan),
            None => false,
        },
        None => res.aggregation is None,
    }
}

/// A failure that a complete execution raises when the clock never expires.
pub open spec fn execution_fails_with(all: Seq<Record>, query: Query, limits: ExecutionLimits, e: QueryError) -> bool {
    ||| scan_error(all, query, limits) == Some(e)
    ||| scan_error(all, query, limits) is None && exists|c: Seq<&Record>|
        arrangement(c, matched_records(all, query), query.sort@) && match query.aggregation {
            Some(plan) => agg_error(roots_of(c), plan, limits.max_groups) == Some(e),
            None => false,
        }
}

// ---------------------------------------------------------------------------
// Continuation.

/// A continuation cursor resumes right after the page that issued it: over
/// the same sorted matches, the page requested with the returned cursor
/// starts at the record that follows the last row of the first page.
pub proof fn lemma_cursor_continues(
    rows1: Seq<Record>,
    k: Cursor,
    c: Seq<&Record>,
    q: Query,
    s1: int,
    rows2: Seq<Record>,
    next2: Option<Cursor>,
    q2: Query,
    s2: int,
)
    requires
        q.limit > 0,
        page_at(rows1, Some(k), c, q, s1),
        q2.sort@ == q.sort@,
        q2.cursor == Some(k),
        q2.limit == q.limit,
        page_at(rows2, next2, c, q2, s2),
        forall|i: int, j: int| 0 <= i < j < c.len() ==> record_order(*#[trigger] c[i], *#[trigger] c[j], q.sort@) < 0,
    ensures
        s2 == s1 + rows1.len(),
        forall|i: int| 0 <= i < rows2.len() ==> same_record(#[trigger] rows2[i], *c[s1 + rows1.len() + i]),
{
    let sort = q.sort@;
    let rules = sort_rules(sort);
    let last = s1 + rows1.len() - 1;
    assert(rows1.len() == q.limit);
    assert(same_record(rows1[rows1.len() - 1], *c[last]));
    assert(rows1.last() == rows1[rows1.len() - 1]);
    let kp = cursor_position(k);
    assert(kp == record_position(*c[last], sort));
    assert forall|i: int| 0 <= i < c.len() implies (at_or_before_cursor(*#[trigger] c[i], q2) <==> i <= last) by {
        let pi = record_position(*c[i], sort);
        lemma_position_order(pi, kp, kp, rules);
        if i < last {
            assert(record_order(*c[i], *c[last], sort) < 0);
        } else if i > last {
            assert(record_order(*c[last], *c[i], sort) < 0);
            lemma_position_order(kp, pi, pi, rules);
        }
    }
    if s2 < last + 1 {
        assert(at_or_before_cursor(*c[s2], q2));
        assert(!at_or_before_cursor(*c[s2], q2));
    }
    if s2 > last + 1 {
        assert(at_or_before_cursor(*c[last + 1], q2));
    }
}

/// The records behind a sequence of references.
pub open spec fn derefs(c: Seq<&Record>) -> Seq<Record> {
    Seq::new(c.len(), |i: int| *c[i])
}

/// Strictly increasing under the sort plan.
pub open spec fn strictly_sorted(rs: Seq<Record>, sort: Seq<SortField>) -> bool {
    forall|i: int, j: int| 0 <= i < j < rs.len() ==> record_order(#[trigger] rs[i], #[trigger] rs[j], sort) < 0
}

proof fn lemma_record_order_antisym(a: Record, b: Record, sort: Seq<SortField>)
    ensures
        record_order(a, b, sort) == -record_order(b, a, sort),
        record_order(a, a, sort) == 0,
{
    let rules = sort_rules(sort);
    lemma_position_order(record_position(a, sort), record_position(b, sort), record_position(b, sort), rules);
    lemma_position_order(record_position(a, sort), record_position(a, sort), record_position(a, sort), rules);
}

proof fn lemma_sorted_same_set_equal(a: Seq<Record>, b: Seq<Record>, sort: Seq<SortField>)
    requires
        strictly_sorted(a, sort),
        strictly_sorted(b, sort),
        a.to_set() == b.to_set(),
        a.len() == b.len(),
    ensures
        a == b,
    decreases a.len(),
{
    if a.len() == 0 {
        assert(a =~= b);
    } else {
        assert(a.to_set().contains(a[0]));
        assert(b.to_set().contains(b[0]));
        assert(b.contains(a[0]));
        assert(a.contains(b[0]));
        let j = choose|j: int| 0 <= j < b.len() && b[j] == a[0];
        let k = choose|k: int| 0 <= k < a.len() && a[k] == b[0];
        if a[0] != b[0] {
            assert(j > 0 && k > 0);
            assert(record_order(b[0], b[j], sort) < 0);
            assert(record_order(a[0], a[k], sort) < 0);
            lemma_record_order_antisym(a[0], b[0], sort);
            assert(false);
        }
        let ta = a.drop_first();
        let tb = b.drop_first();
        assert forall|x: Record| ta.to_set().contains(x) <==> (a.to_set().contains(x) && x != a[0]) by {
            if ta.to_set().contains(x) {
                let i = choose|i: int| 0 <= i < ta.len() && ta[i] == x;
                assert(a[i + 1] == x);
                assert(record_order(a[0], a[i + 1], sort) < 0);
                lemma_record_order_antisym(x, x, sort);
            }
            if a.to_set().contains(x) && x != a[0] {
                let i = choose|i: int| 0 <= i < a.len() && a[i] == x;
                assert(ta[i - 1] == x);
            }
        }
        assert forall|x: Record| tb.to_set().contains(x) <==> (b.to_set().contains(x) && x != b[0]) by {
            if tb.to_set().contains(x) {
                let i = choose|i: int| 0 <= i < tb.len() && tb[i] == x;
                assert(b[i + 1] == x);
                assert(record_order(b[0], b[i + 1], sort) < 0);
                lemma_record_order_antisym(x, x, sort);
            }
            if b.to_set().contains(x) && x != b[0] {
                let i = choose|i: int| 0 <= i < b.len() && b[i] == x;
                assert(tb[i - 1] == x);
            }
        }
        assert(ta.to_set() =~= tb.to_set());
        lemma_sorted_same_set_equal(ta, tb, sort);
        assert(a =~= seq![a[0]] + ta);
        assert(b =~= seq![b[0]] + tb);
    }
}

proof fn lemma_arrangement_set(c: Seq<&Record>, m: Seq<Record>, sort: Seq<SortField>)
    requires
        arrangement(c, m, sort),
    ensures
        strictly_sorted(derefs(c), sort),
        derefs(c).to_set() == m.to_set(),
        derefs(c).len() == m.len(),
{
    let rs = derefs(c);
    assert forall|i: int, j: int| 0 <= i < j < rs.len() implies record_order(#[trigger] rs[i], #[trigger] rs[j], sort) < 0 by {
        assert(rs[i] == *c[i] && rs[j] == *c[j]);
    }
    assert(rs.no_duplicates()) by {
        assert forall|i: int, j: int| 0 <= i < rs.len() && 0 <= j < rs.len() && i != j implies rs[i] != rs[j] by {
            lemma_record_order_antisym(rs[i], rs[j], sort);
            lemma_record_order_antisym(rs[i], rs[i], sort);
            if i < j {
                assert(record_order(rs[i], rs[j], sort) < 0);
            } else {
                assert(record_order(rs[j], rs[i], sort) < 0);
            }
        }
    }
    rs.unique_seq_to_set();
    m.lemma_cardinality_of_set();
    assert(rs.to_set().subset_of(m.to_set())) by {
        assert forall|x: Record| rs.to_set().contains(x) implies m.to_set().contains(x) by {
            let i = choose|i: int| 0 <= i < rs.len() && rs[i] == x;
            assert(m.contains(*c[i]));
        }
    }
    vstd::set_lib::lemma_len_subset(rs.to_set(), m.to_set());
    vstd::set_lib::lemma_subset_equality(rs.to_set(), m.to_set());
}

/// The sorted arrangement of the matched records is unique: two
/// arrangements of the same records under one sort plan are the same
/// sequence.
pub proof fn lemma_arrangement_unique(c1: Seq<&Record>, c2: Seq<&Record>, m: Seq<Record>, sort: Seq<SortField>)
    requires
        arrangement(c1, m, sort),
        arrangement(c2, m, sort),
    ensures
        derefs(c1) == derefs(c2),
{
    lemma_arrangement_set(c1, m, sort);
    lemma_arrangement_set(c2, m, sort);
    lemma_sorted_same_set_equal(derefs(c1), derefs(c2), sort);
}

proof fn lemma_matched_prefix_same_filter(all: Seq<Record>, q: Query, q2: Query, k: int)
    requires
        q2.filter == q.filter,
    ensures
        matched_prefix(all, q, k) == matched_prefix(all, q2, k),
    decreases k,
{
    if k > 0 {
        lemma_matched_prefix_same_filter(all, q, q2, k - 1);
    }
}

/// Paging with the returned cursor continues the same result: a query that
/// differs only by carrying the cursor of a first page matches the same
/// records, orders them the same way, and its page starts right after the
/// first page's last row.
pub proof fn lemma_query_continuation(
    res1: QueryResult,
    res2: QueryResult,
    all: Seq<Record>,
    q: Query,
    q2: Query,
    limits: ExecutionLimits,
    c1: Seq<&Record>,
    c2: Seq<&Record>,
)
    requires
        q.limit > 0,
        answer_from(res1, all, q, limits, c1),
        res1.next_cursor is Some,
        q2.filter == q.filter,
        q2.sort@ == q.sort@,
        q2.cursor == res1.next_cursor,
        q2.limit == q.limit,
        answer_from(res2, all, q2, limits, c2),
    ensures
        derefs(c1) == derefs(c2),
        res2.matched_records == res1.matched_records,
        res2.scanned_records == res1.scanned_records,
        exists|s1: int|
            page_at(res1.rows@, res1.next_cursor, c1, q, s1) && forall|i: int|
                0 <= i < res2.rows@.len() ==> same_record(#[trigger] res2.rows@[i], *c1[s1 + res1.rows@.len() + i]),
{
    lemma_matched_prefix_same_filter(all, q, q2, all.len() as int);
    let m = matched_records(all, q);
    lemma_arrangement_unique(c1, c2, m, q.sort@);
    assert(c1 =~= c2) by {
        assert forall|i: int| 0 <= i < c1.len() implies c1[i] == c2[i] by {
            assert(derefs(c1)[i] == derefs(c2)[i]);
        }
    }
    let s1 = choose|s: int| page_at(res1.rows@, res1.next_cursor, c1, q, s);
    let s2 = choose|s: int| page_at(res2.rows@, res2.next_cursor, c2, q2, s);
    lemma_cursor_continues(res1.rows@, res1.next_cursor->0, c1, q, s1, res2.rows@, res2.next_cursor, q2, s2);
}

// ---------------------------------------------------------------------------
// Scanning.

proof fn lemma_all_records_prefix(shards: Seq<&[Record]>, s: int)
    requires
        0 <= s <= shards.len(),
    ensures
        all_records(shards.subrange(0, s)).len() <= all_records(shards).len(),
        all_records(shards.subrange(0, s)) == all_records(shards).subrange(
            0,
            all_records(shards.subrange(0, s)).len() as int,
        ),
    decreases shards.len(),
{
    if s == shards.len() {
        assert(shards.subrange(0, s) =~= shards);
        assert(all_records(shards).subrange(0, all_records(shards).len() as int) =~= all_records(shards));
    } else {
        let init = shards.subrange(0, shards.len() - 1);
        lemma_all_records_prefix(init, s);
        assert(init.subrange(0, s) =~= shards.subrange(0, s));
        let p = all_records(shards.subrange(0, s));
        assert(all_records(shards) == all_records(init) + shards[shards.len() - 1]@);
        assert(all_records(shards).subrange(0, p.len() as int) =~= all_records(init).subrange(0, p.len() as int));
    }
}

proof fn lemma_matched_prefix_members(all: Seq<Record>, query: Query, k: int)
    requires
        0 <= k <= all.len(),
    ensures
        matched_prefix(all, query, k).len() <= k,
        forall|x: Record| matched_prefix(all, query, k).contains(x) ==> exists|i: int| 0 <= i < k && all[i] == x,
    decreases k,
{
    if k > 0 {
        lemma_matched_prefix_members(all, query, k - 1);
        let prev = matched_prefix(all, query, k - 1);
        assert forall|x: Record| matched_prefix(all, query, k).contains(x) implies exists|i: int| 0 <= i < k && all[i] == x by {
            if record_matches(query, all[k - 1]) {
                let ext = prev.push(all[k - 1]);
                let j = choose|j: int| 0 <= j < ext.len() && #[trigger] ext[j] == x;
                if j < prev.len() {
                    assert(prev[j] == x);
                    assert(prev.contains(x));
                } else {
                    assert(all[k - 1] == x);
                }
            }
        }
    }
}

/// Binary search for the insertion point of a record among sorted records.
fn search_record(c: &Vec<&Record>, record: &Record, sort: &Vec<SortField>) -> (r: usize)
    requires
        forall|i: int, j: int| 0 <= i < j < c@.len() ==> record_order(*#[trigger] c@[i], *#[trigger] c@[j], sort@) < 0,
        forall|i: int| 0 <= i < c@.len() ==> (#[trigger] c@[i]).key@ != record.key@,
    ensures
        r <= c@.len(),
        forall|i: int| 0 <= i < r ==> record_order(*#[trigger] c@[i], *record, sort@) < 0,
        forall|i: int| r <= i < c@.len() ==> record_order(*record, *#[trigger] c@[i], sort@) < 0,
{
    let ghost rules = sort_rules(sort@);
    let mut lo: usize = 0;
    let mut hi: usize = c.len();
    while lo < hi
        invariant
            rules == sort_rules(sort@),
            forall|i: int, j: int| 0 <= i < j < c@.len() ==> record_order(*#[trigger] c@[i], *#[trigger] c@[j], sort@) < 0,
            forall|i: int| 0 <= i < c@.len() ==> (#[trigger] c@[i]).key@ != record.key@,
            lo <= hi <= c@.len(),
            forall|i: int| 0 <= i < lo ==> record_order(*#[trigger] c@[i], *record, sort@) < 0,
            forall|i: int| hi <= i < c@.len() ==> record_order(*record, *#[trigger] c@[i], sort@) < 0,
        decreases hi - lo,
    {
        let mid = lo + (hi - lo) / 2;
        let order = compare_records(c[mid], record, sort);
        let ghost pm = record_position(*c@[mid as int], sort@);
        let ghost pr = record_position(*record, sort@);
        proof {
            lemma_position_order(pm, pr, pr, rules);
            assert(c@[mid as int].key@ != record.key@);
        }
        match order {
            Comparison::Less => {
                proof {
                    assert forall|i: int| 0 <= i < mid + 1 implies record_order(*#[trigger] c@[i], *record, sort@) < 0 by {
                        if i < mid {
                            lemma_position_order(record_position(*c@[i], sort@), pm, pr, rules);
                        }
                    }
                }
                lo = mid + 1;
            },
            _ => {
                proof {
                    assert forall|i: int| mid <= i < c@.len() implies record_order(*record, *#[trigger] c@[i], sort@) < 0 by {
                        if i > mid {
                            lemma_position_order(pr, pm, record_position(*c@[i], sort@), rules);
                        }
                    }
                }
                hi = mid;
            },
        }
    }
    lo
}


proof fn lemma_insert_record(old: Seq<&Record>, new: Seq<&Record>, at: int, rec: &Record, sort: Seq<SortField>)
    requires
        0 <= at <= old.len(),
        new == old.insert(at, rec),
        forall|i: int, j: int| 0 <= i < j < old.len() ==> record_order(*#[trigger] old[i], *#[trigger] old[j], sort) < 0,
        forall|i: int| 0 <= i < at ==> record_order(*#[trigger] old[i], *rec, sort) < 0,
        forall|i: int| at <= i < old.len() ==> record_order(*rec, *#[trigger] old[i], sort) < 0,
    ensures
        forall|i: int, j: int| 0 <= i < j < new.len() ==> record_order(*#[trigger] new[i], *#[trigger] new[j], sort) < 0,
        forall|i: int| 0 <= i < new.len() ==> (#[trigger] new[i] == rec || old.contains(new[i])),
{
    assert forall|i: int, j: int| 0 <= i < j < new.len() implies record_order(*#[trigger] new[i], *#[trigger] new[j], sort) < 0 by {
        if j < at {
            assert(new[i] == old[i] && new[j] == old[j]);
        } else if j == at {
            assert(new[i] == old[i]);
        } else if i == at {
            assert(new[j] == old[j - 1]);
        } else if i < at {
            assert(new[i] == old[i] && new[j] == old[j - 1]);
        } else {
            assert(new[i] == old[i - 1] && new[j] == old[j - 1]);
        }
    }
    assert forall|i: int| 0 <= i < new.len() implies (#[trigger] new[i] == rec || old.contains(new[i])) by {
        if i < at {
            assert(new[i] == old[i]);
        } else if i > at {
            assert(new[i] == old[i - 1]);
        }
    }
}

pub(crate) proof fn lemma_insert_key(old: Seq<&[u8]>, new: Seq<&[u8]>, pos: int, key: &[u8])
    requires
        0 <= pos <= old.len(),
        new == old.insert(pos, key),
        keys_sorted(old),
        forall|i: int| 0 <= i < pos ==> bytes_order(#[trigger] old[i]@, key@) < 0,
        forall|i: int| pos <= i < old.len() ==> bytes_order(key@, #[trigger] old[i]@) < 0,
    ensures
        keys_sorted(new),
        forall|b: Seq<u8>| #[trigger] key_listed(new, b) <==> (key_listed(old, b) || b == key@),
{
    assert forall|i: int, j: int| 0 <= i < j < new.len() implies bytes_order(#[trigger] new[i]@, #[trigger] new[j]@) < 0 by {
        if j < pos {
            assert(new[i] == old[i] && new[j] == old[j]);
        } else if j == pos {
            assert(new[i] == old[i]);
        } else if i == pos {
            assert(new[j] == old[j - 1]);
        } else if i < pos {
            assert(new[i] == old[i] && new[j] == old[j - 1]);
        } else {
            assert(new[i] == old[i - 1] && new[j] == old[j - 1]);
        }
    }
    assert forall|b: Seq<u8>| #[trigger] key_listed(new, b) <==> (key_listed(old, b) || b == key@) by {
        if key_listed(new, b) {
            let i = choose|i: int| 0 <= i < new.len() && new[i]@ == b;
            if i < pos {
                assert(new[i] == old[i]);
                assert(key_listed(old, b));
            } else if i > pos {
                assert(new[i] == old[i - 1]);
                assert(key_listed(old, b));
            }
        }
        if key_listed(old, b) {
            let p = choose|p: int| 0 <= p < old.len() && old[p]@ == b;
            if p < pos {
                assert(new[p] == old[p]);
            } else {
                assert(new[p + 1] == old[p]);
            }
        }
        if b == key@ {
            assert(new[pos] == key);
        }
    }
}

/// Some listed key has the bytes `b`.
pub open spec fn key_listed(keys: Seq<&[u8]>, b: Seq<u8>) -> bool {
    exists|p: int| 0 <= p < keys.len() && keys[p]@ == b
}

/// One of the first `k` records has the key `b`.
pub open spec fn key_seen(all: Seq<Record>, k: int, b: Seq<u8>) -> bool {
    exists|i: int| 0 <= i < k && all[i].key@ == b
}

/// The keys of the first `k` records are exactly the listed keys.
pub open spec fn keys_of_prefix(keys: Seq<&[u8]>, all: Seq<Record>, k: int) -> bool {
    forall|b: Seq<u8>|
        #![trigger key_listed(keys, b)]
        #![trigger key_seen(all, k, b)]
        key_listed(keys, b) <==> key_seen(all, k, b)
}

proof fn lemma_key_seen_step(all: Seq<Record>, k: int, b: Seq<u8>)
    requires
        0 <= k < all.len(),
    ensures
        key_seen(all, k + 1, b) <==> (key_seen(all, k, b) || all[k].key@ == b),
{
    if key_seen(all, k + 1, b) {
        let i = choose|i: int| 0 <= i < k + 1 && all[i].key@ == b;
        if i < k {
            assert(key_seen(all, k, b));
        }
    }
    if key_seen(all, k, b) {
        let i = choose|i: int| 0 <= i < k && all[i].key@ == b;
        assert(0 <= i < k + 1 && all[i].key@ == b);
    }
    if all[k].key@ == b {
        assert(0 <= k < k + 1 && all[k].key@ == b);
    }
}

/// The scan state after the first `k` records.
pub open spec fn scan_state(
    keys: Seq<&[u8]>,
    candidates: Seq<&Record>,
    matched: u64,
    all: Seq<Record>,
    query: Query,
    limits: ExecutionLimits,
    k: int,
) -> bool {
    &&& 0 <= k <= all.len()
    &&& keys_sorted(keys)
    &&& keys_of_prefix(keys, all, k)
    &&& forall|i: int| 0 <= i < k ==> #[trigger] scan_fault(all, query, limits, i) is None
    &&& arrangement(candidates, matched_prefix(all, query, k), query.sort@)
    &&& matched == matched_prefix(all, query, k).len()
}

/// Lists the key of record `k` unless an earlier record has it; returns
/// whether one does.
fn admit_key<'r>(record: &'r Record, keys: &mut Vec<&'r [u8]>, Ghost(all): Ghost<Seq<Record>>, Ghost(k): Ghost<int>) -> (dup: bool)
    requires
        0 <= k < all.len(),
        all[k] == *record,
        keys_sorted(old(keys)@),
        keys_of_prefix(old(keys)@, all, k),
    ensures
        dup == key_seen(all, k, all[k].key@),
        !dup ==> keys_sorted(final(keys)@) && keys_of_prefix(final(keys)@, all, k + 1),
{
    let (found, pos) = search_key(&*keys, record.key.as_slice());
    proof {
        assert(found == key_listed(keys@, record.key@));
        assert(key_listed(keys@, record.key@) == key_seen(all, k, all[k].key@));
    }
    if found {
        return true;
    }
    let ghost old_keys = keys@;
    keys.insert(pos, record.key.as_slice());
    proof {
        lemma_insert_key(old_keys, keys@, pos as int, keys@[pos as int]);
        assert forall|b: Seq<u8>| key_listed(keys@, b) <==> key_seen(all, k + 1, b) by {
            lemma_key_seen_step(all, k, b);
        }
    }
    false
}

/// Inserts a matched record into the sorted candidates.
fn insert_candidate<'r>(
    record: &'r Record,
    candidates: &mut Vec<&'r Record>,
    sort: &Vec<SortField>,
    Ghost(mp): Ghost<Seq<Record>>,
)
    requires
        arrangement(old(candidates)@, mp, sort@),
        forall|i: int| 0 <= i < old(candidates)@.len() ==> (#[trigger] old(candidates)@[i]).key@ != record.key@,
    ensures
        arrangement(final(candidates)@, mp.push(*record), sort@),
{
    let at = search_record(&*candidates, record, sort);
    let ghost old_c = candidates@;
    candidates.insert(at, record);
    proof {
        lemma_insert_record(old_c, candidates@, at as int, record, sort@);
        assert forall|i: int| 0 <= i < candidates@.len() implies mp.push(*record).contains(*#[trigger] candidates@[i]) by {
            if candidates@[i] == record {
                assert(mp.push(*record)[mp.len() as int] == *record);
            } else {
                let t = choose|t: int| 0 <= t < old_c.len() && old_c[t] == candidates@[i];
                assert(mp.contains(*old_c[t]));
                let u = choose|u: int| 0 <= u < mp.len() && mp[u] == *old_c[t];
                assert(mp.push(*record)[u] == mp[u]);
            }
        }
    }
}

/// Admits record `k` of the scan: budgets, key rules, filter, and sorted
/// insertion of a match.
fn admit_record<'r>(
    record: &'r Record,
    keys: &mut Vec<&'r [u8]>,
    candidates: &mut Vec<&'r Record>,
    matched: &mut u64,
    scanned: u64,
    query: &Query,
    limits: &ExecutionLimits,
    Ghost(all): Ghost<Seq<Record>>,
) -> (r: Result<(), QueryError>)
    requires
        scanned < all.len(),
        all[scanned as int] == *record,
        scan_state(old(keys)@, old(candidates)@, *old(matched), all, *query, *limits, scanned as int),
    ensures
        match r {
            Ok(()) => scan_state(final(keys)@, final(candidates)@, *final(matched), all, *query, *limits, scanned + 1),
            Err(e) => is_first_fault(all, *query, *limits, scanned as int) && scan_fault(all, *query, *limits, scanned as int) == Some(e),
        },
{
    let ghost k = scanned as int;
    if scanned >= limits.max_scanned_records {
        return Err(QueryError::ScannedBudgetExceeded { maximum: limits.max_scanned_records });
    }
    if record.key.len() == 0 {
        return Err(QueryError::EmptyRecordKey);
    }
    if admit_key(record, keys, Ghost(all), Ghost(k)) {
        return Err(QueryError::DuplicateRecordKey);
    }
    let ghost mp = matched_prefix(all, *query, k);
    if filter_matches(&query.filter, &record.value) {
        if *matched >= limits.max_matched_records {
            return Err(QueryError::MatchedBudgetExceeded { maximum: limits.max_matched_records });
        }
        proof {
            lemma_matched_prefix_members(all, *query, k);
            assert forall|i: int| 0 <= i < candidates@.len() implies (#[trigger] candidates@[i]).key@ != record.key@ by {
                assert(mp.contains(*candidates@[i]));
                let t = choose|t: int| 0 <= t < k && all[t] == *candidates@[i];
                if all[t].key@ == all[k].key@ {
                    assert(0 <= t < k && all[t].key@ == all[k].key@);
                    assert(key_seen(all, k, all[k].key@));
                }
            }
        }
        insert_candidate(record, candidates, &query.sort, Ghost(mp));
        proof {
            assert(matched_prefix(all, *query, k + 1) == mp.push(all[k]));
        }
        *matched = *matched + 1;
    }
    assert(scan_fault(all, *query, *limits, k) is None);
    Ok(())
}

/// Scans every shard in order, enforcing the budgets and key rules, and
/// returns the matched records in sort order with the two counters.
fn scan<'r, C: MonotonicClock>(
    shards: &[&'r [Record]],
    query: &Query,
    limits: &ExecutionLimits,
    clock: &mut C,
    deadline: u128,
) -> (r: Result<(Vec<&'r Record>, u64, u64), QueryError>)
    ensures
        match r {
            Ok((c, scanned, matched)) => scan_error(all_records(shards@), *query, *limits) is None
                && arrangement(c@, matched_records(all_records(shards@), *query), query.sort@)
                && scanned == all_records(shards@).len() && matched == matched_records(
                all_records(shards@),
                *query,
            ).len(),
            Err(e) => e == QueryError::TimedOut || scan_error(all_records(shards@), *query, *limits)
                == Some(e),
        },
        extends(old(clock).readings(), final(clock).readings()),
        r matches Err(QueryError::TimedOut) ==> reached_since(old(clock).readings(), final(clock).readings(), deadline),
{
    let ghost all = all_records(shards@);
    let ghost start = clock.readings();
    proof {
        assert(start.subrange(0, start.len() as int) =~= start);
    }
    let mut keys: Vec<&'r [u8]> = Vec::new();
    let mut candidates: Vec<&'r Record> = Vec::new();
    let mut scanned: u64 = 0;
    let mut matched: u64 = 0;
    let mut s: usize = 0;
    proof {
        assert(shards@.subrange(0, 0) =~= Seq::<&[Record]>::empty());
    }
    while s < shards.len()
        invariant
            all == all_records(shards@),
            s <= shards@.len(),
            scanned == all_records(shards@.subrange(0, s as int)).len(),
            scanned <= all.len(),
            scan_state(keys@, candidates@, matched, all, *query, *limits, scanned as int),
            extends(start, clock.readings()),
            start == old(clock).readings(),
        decreases shards@.len() - s,
    {
        let shard: &'r [Record] = shards[s];
        let ghost base = scanned as int;
        proof {
            lemma_all_records_step(shards@, s as int);
            lemma_all_records_prefix(shards@, s as int + 1);
            let p = all_records(shards@.subrange(0, s as int + 1));
            assert forall|i: int| 0 <= i < shard@.len() implies all[base + i] == #[trigger] shard@[i] by {
                assert(p[base + i] == shard@[i]);
                assert(all.subrange(0, p.len() as int)[base + i] == all[base + i]);
            }
        }
        let mut j: usize = 0;
        while j < shard.len()
            invariant
                all == all_records(shards@),
                s < shards@.len(),
                shard == shards@[s as int],
                base == all_records(shards@.subrange(0, s as int)).len(),
                base + shard@.len() == all_records(shards@.subrange(0, s as int + 1)).len(),
                base + shard@.len() <= all.len(),
                forall|i: int| 0 <= i < shard@.len() ==> all[base + i] == #[trigger] shard@[i],
                j <= shard@.len(),
                scanned == base + j,
                scan_state(keys@, candidates@, matched, all, *query, *limits, scanned as int),
                extends(start, clock.readings()),
                start == old(clock).readings(),
            decreases shard@.len() - j,
        {
            let ghost k = scanned as int;
            let record: &'r Record = &shard[j];
            assert(all[k] == *record);
            let ghost before = clock.readings();
            let checked = check_timeout(clock, deadline);
            proof {
                lemma_extends_trans(start, before, clock.readings());
                if checked is Err {
                    assert(clock.readings()[clock.readings().len() - 1] >= deadline);
                    assert(reached_since(start, clock.readings(), deadline));
                }
            }
            match checked {
                Ok(()) => {},
                Err(e) => {
                    return Err(e);
                },
            }
            match admit_record(record, &mut keys, &mut candidates, &mut matched, scanned, query, limits, Ghost(all)) {
                Ok(()) => {},
                Err(e) => {
                    proof {
                        lemma_first_fault_unique(all, *query, *limits, k);
                    }
                    return Err(e);
                },
            }
            scanned = scanned + 1;
            j = j + 1;
        }
        s = s + 1;
    }
    proof {
        assert(shards@.subrange(0, shards@.len() as int) =~= shards@);
        if exists|k: int| is_first_fault(all, *query, *limits, k) {
            let k = choose|k: int| is_first_fault(all, *query, *limits, k);
            assert(scan_fault(all, *query, *limits, k) is None);
        }
    }
    Ok((candidates, scanned, matched))
}


// ---------------------------------------------------------------------------
// Pagination.

/// The cursor naming the position of a record.
fn cursor_for(record: &Record, sort: &Vec<SortField>) -> (r: Cursor)
    ensures
        cursor_names(r, *record, sort@),
{
    let mut values: Vec<Option<Value>> = Vec::new();
    let mut i: usize = 0;
    while i < sort.len()
        invariant
            i <= sort@.len(),
            values@.len() == i,
            forall|j: int|
                0 <= j < i ==> match #[trigger] values@[j] {
                    Some(x) => normalized(crate::value::resolve_model(model_of(record.value), sort@[j].path@)) == Some(model_of(x)),
                    None => normalized(crate::value::resolve_model(model_of(record.value), sort@[j].path@)) is None,
                },
        decreases sort@.len() - i,
    {
        let v = match optional_resolved_sort_value(&sort[i].path, &record.value) {
            Some(x) => Some(x.duplicate()),
            None => None,
        };
        values.push(v);
        i = i + 1;
    }
    proof {
        assert(option_models(values@) =~= sort_values_of(model_of(record.value), sort@));
    }
    Cursor { sort_values: values, key: crate::value::copy_bytes(record.key.as_slice()) }
}

/// Index of the first sorted record after the cursor.
fn page_start(c: &Vec<&Record>, query: &Query) -> (start: usize)
    requires
        forall|i: int, j: int| 0 <= i < j < c@.len() ==> record_order(*#[trigger] c@[i], *#[trigger] c@[j], query.sort@) < 0,
        query.cursor matches Some(cur) ==> cur.sort_values@.len() == query.sort@.len(),
    ensures
        start <= c@.len(),
        forall|i: int| 0 <= i < start ==> at_or_before_cursor(*#[trigger] c@[i], *query),
        forall|i: int| start <= i < c@.len() ==> !at_or_before_cursor(*#[trigger] c@[i], *query),
{
    match &query.cursor {
        None => 0,
        Some(cursor) => {
            let ghost rules = sort_rules(query.sort@);
            let ghost cp = cursor_position(*cursor);
            let mut i: usize = 0;
            while i < c.len()
                invariant
                    query.cursor == Some(*cursor),
                    rules == sort_rules(query.sort@),
                    cp == cursor_position(*cursor),
                    cursor.sort_values@.len() == query.sort@.len(),
                    forall|a: int, b: int| 0 <= a < b < c@.len() ==> record_order(*#[trigger] c@[a], *#[trigger] c@[b], query.sort@) < 0,
                    i <= c@.len(),
                    forall|j: int| 0 <= j < i ==> at_or_before_cursor(*#[trigger] c@[j], *query),
                decreases c@.len() - i,
            {
                let order = compare_record_to_cursor(c[i], cursor, &query.sort);
                match order {
                    Comparison::Greater => {
                        proof {
                            let pi = record_position(*c@[i as int], query.sort@);
                            lemma_position_order(pi, cp, cp, rules);
                            assert forall|j: int| i <= j < c@.len() implies !at_or_before_cursor(*#[trigger] c@[j], *query) by {
                                if j > i {
                                    let pj = record_position(*c@[j], query.sort@);
                                    lemma_position_order(cp, pi, pj, rules);
                                    lemma_position_order(pj, cp, cp, rules);
                                }
                            }
                        }
                        return i;
                    },
                    _ => {},
                }
                i = i + 1;
            }
            i
        },
    }
}

/// The requested page of the sorted records and the cursor after it.
fn paginate(c: &Vec<&Record>, query: &Query) -> (r: (Vec<Record>, Option<Cursor>))
    requires
        forall|i: int, j: int| 0 <= i < j < c@.len() ==> record_order(*#[trigger] c@[i], *#[trigger] c@[j], query.sort@) < 0,
        query.cursor matches Some(cur) ==> cur.sort_values@.len() == query.sort@.len(),
        query.limit > 0,
    ensures
        page_matches(r.0@, r.1, c@, *query),
{
    let start = page_start(c, query);
    let remaining = c.len() - start;
    let page_length = if remaining < query.limit {
        remaining
    } else {
        query.limit
    };
    let mut rows: Vec<Record> = Vec::new();
    let mut i: usize = 0;
    while i < page_length
        invariant
            start + page_length <= c@.len(),
            c@.len() <= usize::MAX,
            i <= page_length,
            rows@.len() == i,
            forall|j: int| 0 <= j < i ==> same_record(#[trigger] rows@[j], *c@[start + j]),
        decreases page_length - i,
    {
        rows.push(c[start + i].duplicate());
        i = i + 1;
    }
    let next = if remaining > page_length {
        Some(cursor_for(&rows[rows.len() - 1], &query.sort))
    } else {
        None
    };
    proof {
        assert(page_at(rows@, next, c@, *query, start as int));
    }
    (rows, next)
}

// ---------------------------------------------------------------------------
// Execution.

/// What one execution may return: the validation error when the query is
/// invalid; else the complete answer, `TimedOut`, or the failure a complete
/// execution raises.
pub open spec fn executes_to(
    shards: Seq<&[Record]>,
    query: Query,
    limits: ExecutionLimits,
    r: Result<QueryResult, QueryError>,
) -> bool {
    let all = all_records(shards);
    match validation_outcome(query, limits) {
        Err(v) => r == Err::<QueryResult, QueryError>(v),
        Ok(()) => match r {
            Ok(res) => scan_error(all, query, limits) is None && exists|c: Seq<&Record>|
                #[trigger] answer_from(res, all, query, limits, c),
            Err(e) => e == QueryError::TimedOut || execution_fails_with(all, query, limits, e),
        },
    }
}

/// Executes one query with an injectable monotonic clock.
///
/// This is public so conformance suites can prove timeout behavior without
/// wall-clock sleeps.
pub fn execute_with_clock<C: MonotonicClock>(
    shards: &[&[Record]],
    query: &Query,
    limits: &ExecutionLimits,
    clock: &mut C,
) -> (r: Result<QueryResult, QueryError>)
    ensures
        executes_to(shards@, *query, *limits, r),
        extends(old(clock).readings(), final(clock).readings()),
        r matches Err(QueryError::TimedOut) ==> timed_out_since(
            old(clock).readings(),
            final(clock).readings(),
            limits.timeout_nanos,
        ),
{
    let ghost start = clock.readings();
    proof {
        assert(start.subrange(0, start.len() as int) =~= start);
    }
    match validate_query(query, limits) {
        Ok(()) => {},
        Err(e) => {
            return Err(e);
        },
    }
    let ghost all = all_records(shards@);
    let started = clock.now();
    let ghost first = clock.readings();
    proof {
        assert(first.subrange(0, first.len() as int) =~= first);
        assert(first.subrange(0, start.len() as int) =~= start);
    }
    let deadline = match started.checked_add(limits.timeout_nanos) {
        Some(d) => d,
        None => u128::MAX,
    };
    assert(deadline == deadline_after(started, limits.timeout_nanos));
    let checked = check_timeout(clock, deadline);
    proof {
        lemma_extends_trans(start, first, clock.readings());
        if checked is Err {
            assert(clock.readings()[clock.readings().len() - 1] >= deadline);
            assert(reached_since(first, clock.readings(), deadline));
            lemma_timed_out(start, first, clock.readings(), started, limits.timeout_nanos);
        }
    }
    match checked {
        Ok(()) => {},
        Err(e) => {
            return Err(e);
        },
    }
    let ghost before_scan = clock.readings();
    let scanned_result = scan(shards, query, limits, clock, deadline);
    proof {
        lemma_extends_trans(first, before_scan, clock.readings());
        lemma_extends_trans(start, first, clock.readings());
        if scanned_result matches Err(QueryError::TimedOut) {
            lemma_reached_widen(first, before_scan, clock.readings(), deadline);
            lemma_timed_out(start, first, clock.readings(), started, limits.timeout_nanos);
        }
    }
    let (candidates, scanned, matched) = match scanned_result {
        Ok(found) => found,
        Err(e) => {
            return Err(e);
        },
    };
    let ghost before_check = clock.readings();
    let checked = check_timeout(clock, deadline);
    proof {
        lemma_extends_trans(first, before_check, clock.readings());
        lemma_extends_trans(start, first, clock.readings());
        if checked is Err {
            assert(clock.readings()[clock.readings().len() - 1] >= deadline);
            assert(reached_since(before_check, clock.readings(), deadline));
            lemma_reached_widen(first, before_check, clock.readings(), deadline);
            lemma_timed_out(start, first, clock.readings(), started, limits.timeout_nanos);
        }
    }
    match checked {
        Ok(()) => {},
        Err(e) => {
            return Err(e);
        },
    }
    let ghost before_agg = clock.readings();
    proof {
        assert(before_agg.subrange(0, before_agg.len() as int) =~= before_agg);
    }
    let aggregation = match &query.aggregation {
        Some(plan) => match aggregate(&candidates, plan, limits.max_groups, clock, deadline) {
            Ok(a) => Some(a),
            Err(e) => {
                proof {
                    lemma_extends_trans(first, before_agg, clock.readings());
                    lemma_extends_trans(start, first, clock.readings());
                    if e != QueryError::TimedOut {
                        assert(arrangement(candidates@, matched_records(all, *query), query.sort@));
                    } else {
                        lemma_reached_widen(first, before_agg, clock.readings(), deadline);
                        lemma_timed_out(start, first, clock.readings(), started, limits.timeout_nanos);
                    }
                }
                return Err(e);
            },
        },
        None => None,
    };
    proof {
        lemma_extends_trans(first, before_agg, clock.readings());
        lemma_extends_trans(start, first, clock.readings());
    }
    let (rows, next_cursor) = paginate(&candidates, query);
    let res = QueryResult {
        rows,
        next_cursor,
        aggregation,
        scanned_records: scanned,
        matched_records: matched,
    };
    proof {
        assert(answer_from(res, all, *query, *limits, candidates@));
    }
    Ok(res)
}


/// Executes one query over complete logical shards using the system clock.
pub fn execute(shards: &[&[Record]], query: &Query, limits: &ExecutionLimits) -> (r: Result<
    QueryResult,
    QueryError,
>)
    ensures
        executes_to(shards@, *query, *limits, r),
        r matches Err(QueryError::TimedOut) ==> exists|readings: Seq<u128>|
            timed_out_since(Seq::empty(), readings, limits.timeout_nanos),
{
    let mut clock = SystemClock::default();
    let r = execute_with_clock(shards, query, limits, &mut clock);
    proof {
        if r matches Err(QueryError::TimedOut) {
            assert(timed_out_since(Seq::empty(), clock.readings(), limits.timeout_nanos));
        }
    }
    r
}

// ---------------------------------------------------------------------------
// The system clock.

#[verifier::external_type_specification]
#[verifier::external_body]
pub struct ExInstant(std::time::Instant);

/// `std::time::Instant::now`: the current reading of the monotonic clock.
/// Nothing is stated of it.
#[verifier::external_body]
fn instant_now() -> std::time::Instant {
    std::time::Instant::now()
}

/// `Instant::elapsed`: the time since `origin`. Nothing is stated of it: it
/// depends on the time of the call.
#[verifier::external_body]
fn instant_elapsed(origin: &std::time::Instant) -> core::time::Duration {
    origin.elapsed()
}

/// `Duration::as_nanos`: the whole nanoseconds of a duration. A duration is
/// opaque here, so nothing is stated of the count.
#[verifier::external_body]
fn duration_nanos(d: core::time::Duration) -> u128 {
    d.as_nanos()
}

/// Production monotonic clock backed by `std::time::Instant`.
pub struct SystemClock {
    origin: std::time::Instant,
    taken: Ghost<Seq<u128>>,
}

impl Default for SystemClock {
    fn default() -> (r: Self)
        ensures
            r.readings() == Seq::<u128>::empty(),
    {
        SystemClock { origin: instant_now(), taken: Ghost(Seq::empty()) }
    }
}

impl MonotonicClock for SystemClock {
    closed spec fn readings(&self) -> Seq<u128> {
        self.taken@
    }

    fn now(&mut self) -> (r: u128) {
        let r = duration_nanos(instant_elapsed(&self.origin));
        self.taken = Ghost(self.taken@.push(r));
        r
    }
}

} // verus!
