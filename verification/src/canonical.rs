//! Durable exact retrieval under the canonical integer cosine score.
use vstd::prelude::*;

use crate::engine::{key_listed, lemma_insert_key};
use crate::query::{keys_sorted, search_key};
use crate::shared::{Q15Vector, VectorSpaceName, is_canonical_q15, MAX_VECTOR_DIMENSIONS, SCORE_NANOS_SCALE};
use crate::value::{bytes_order, compare_bytes, lemma_bytes_order_antisym, lemma_bytes_order_trans, Comparison};

use crate::query::{
    deadline_after, extends, lemma_extends_trans, lemma_reached_widen, lemma_timed_out, reached_since, timed_out_since,
};

verus! {

/// One durable exact-retrieval candidate.
#[derive(Clone, Debug, PartialEq, Eq)]
pub struct DurableVectorRecord {
    /// Globally unique nonempty object key within the selected space.
    pub key: Vec<u8>,
    /// Canonical signed-Q15 vector.
    pub vector: Q15Vector,
}

/// Durable exact-retrieval request under semantics v2.
#[derive(Clone, Debug, PartialEq, Eq)]
pub struct ExactRetrievalRequest {
    /// Canonical named vector space.
    pub vector_space: VectorSpaceName,
    /// Canonical signed-Q15 query.
    pub query: Q15Vector,
    /// Maximum returned matches.
    pub limit: usize,
    /// Inclusive minimum canonical score.
    pub minimum_score_nanos: i64,
    /// Minimum canonical best/runner-up margin.
    pub minimum_margin_nanos: u64,
}

/// Runtime and shape limits for durable exact retrieval.
#[derive(Clone, Copy, Debug, PartialEq, Eq)]
pub struct ExactRetrievalLimits {
    /// Maximum candidates inspected.
    pub max_candidates: u64,
    /// Maximum aggregate candidate key and vector bytes loaded.
    pub max_candidate_bytes: u64,
    /// Maximum requested results.
    pub max_returned: usize,
    /// Cooperative timeout in nanoseconds.
    pub timeout_nanos: u128,
}

impl Default for ExactRetrievalLimits {
    fn default() -> (r: Self)
        ensures
            r.max_candidates == 100_000,
            r.max_candidate_bytes == 256 * 1024 * 1024,
            r.max_returned == 1_000,
            r.timeout_nanos == 30_000_000_000,
    {
        ExactRetrievalLimits {
            max_candidates: 100_000,
            max_candidate_bytes: 268_435_456,
            max_returned: 1_000,
            timeout_nanos: 30_000_000_000,
        }
    }
}

/// One canonical exact match.
#[derive(Clone, Debug, PartialEq, Eq)]
pub struct ExactRetrievalMatch {
    /// Binary object key.
    pub key: Vec<u8>,
    /// Canonical integer cosine score.
    pub score_nanos: i64,
}

/// Complete durable exact-retrieval outcome.
#[derive(Clone, Debug, PartialEq, Eq)]
pub enum ExactRetrievalOutcome {
    /// Accepted globally ranked matches.
    Matches {
        /// Final matches.
        matches: Vec<ExactRetrievalMatch>,
        /// Global candidates inspected.
        scanned_candidates: u64,
    },
    /// Typed normal abstention.
    Abstained(ExactAbstention),
}

/// Stable durable exact-retrieval abstention evidence.
#[derive(Clone, Copy, Debug, PartialEq, Eq, Structural)]
pub struct ExactAbstention {
    /// Stable reason.
    pub reason: ExactAbstentionReason,
    /// Best canonical score when present.
    pub best_score_nanos: Option<i64>,
    /// Runner-up canonical score when present.
    pub runner_up_score_nanos: Option<i64>,
    /// Global candidates inspected.
    pub scanned_candidates: u64,
}

/// Stable reason why durable exact retrieval declined matches.
#[derive(Clone, Copy, Debug, PartialEq, Eq, Structural)]
pub enum ExactAbstentionReason {
    /// The selected space contains no vectors.
    NoCandidates,
    /// The best score is below the request threshold.
    BelowThreshold,
    /// The best/runner-up gap is below the request margin.
    Ambiguous,
}

/// Failure to execute durable exact retrieval completely.
#[derive(Clone, Copy, Debug, PartialEq, Eq, Structural)]
pub enum ExactRetrievalError {
    /// Candidate keys must be nonempty.
    EmptyCandidateKey,
    /// Candidate keys must be unique in one space.
    DuplicateCandidateKey,
    /// Candidate and query dimensions must match.
    DimensionMismatch {
        /// Query dimension.
        expected: u16,
        /// Candidate dimension.
        found: u16,
    },
    /// At least one match must be requested.
    ZeroLimit,
    /// The requested result count exceeds policy.
    ResultLimitExceeded {
        /// Requested result count.
        requested: usize,
        /// Maximum result count.
        maximum: usize,
    },
    /// The score threshold is outside the canonical cosine range.
    InvalidMinimumScore,
    /// The margin is outside the canonical cosine range width.
    InvalidMinimumMargin,
    /// The global candidate budget was exhausted.
    CandidateBudgetExceeded {
        /// Maximum candidates.
        maximum: u64,
    },
    /// The aggregate candidate key/vector byte budget was exhausted.
    CandidateByteBudgetExceeded {
        /// Maximum aggregate candidate bytes.
        maximum: u64,
    },
    /// The cooperative timeout elapsed.
    TimedOut,
    /// Checked integer arithmetic failed.
    ArithmeticOverflow,
}

/// The description of each ExactRetrievalError.
pub open spec fn exact_error_text(e: ExactRetrievalError) -> Seq<char> {
    match e {
        ExactRetrievalError::EmptyCandidateKey => "candidate key must be nonempty"@,
        ExactRetrievalError::DuplicateCandidateKey => "duplicate candidate key"@,
        ExactRetrievalError::DimensionMismatch { .. } => "candidate dimension does not match query dimension"@,
        ExactRetrievalError::ZeroLimit => "retrieval limit must be nonzero"@,
        ExactRetrievalError::ResultLimitExceeded { .. } => "retrieval limit exceeds maximum"@,
        ExactRetrievalError::InvalidMinimumScore => "minimum score nanos must be in [-1000000000, 1000000000]"@,
        ExactRetrievalError::InvalidMinimumMargin => "minimum margin nanos must be in [0, 2000000000]"@,
        ExactRetrievalError::CandidateBudgetExceeded { .. } => "global candidate budget exceeded"@,
        ExactRetrievalError::CandidateByteBudgetExceeded { .. } => "global candidate byte budget exceeded"@,
        ExactRetrievalError::TimedOut => "retrieval execution timed out"@,
        ExactRetrievalError::ArithmeticOverflow => "canonical score arithmetic overflow"@,
    }
}

impl ExactRetrievalError {
    /// Human-readable description of the failure.
    pub fn message(&self) -> (r: String)
        ensures
            r@ == exact_error_text(*self),
    {
        match self {
            ExactRetrievalError::EmptyCandidateKey => "candidate key must be nonempty".to_string(),
            ExactRetrievalError::DuplicateCandidateKey => "duplicate candidate key".to_string(),
            ExactRetrievalError::DimensionMismatch { .. } => "candidate dimension does not match query dimension".to_string(),
            ExactRetrievalError::ZeroLimit => "retrieval limit must be nonzero".to_string(),
            ExactRetrievalError::ResultLimitExceeded { .. } => "retrieval limit exceeds maximum".to_string(),
            ExactRetrievalError::InvalidMinimumScore => "minimum score nanos must be in [-1000000000, 1000000000]".to_string(),
            ExactRetrievalError::InvalidMinimumMargin => "minimum margin nanos must be in [0, 2000000000]".to_string(),
            ExactRetrievalError::CandidateBudgetExceeded { .. } => "global candidate budget exceeded".to_string(),
            ExactRetrievalError::CandidateByteBudgetExceeded { .. } => "global candidate byte budget exceeded".to_string(),
            ExactRetrievalError::TimedOut => "retrieval execution timed out".to_string(),
            ExactRetrievalError::ArithmeticOverflow => "canonical score arithmetic overflow".to_string(),
        }
    }
}

/// Monotonic clock used by the canonical executor.
pub trait ExactRetrievalClock {
    /// Every reading this clock has returned, oldest first.
    spec fn retrieval_readings(&self) -> Seq<u128>;

    /// Returns a nondecreasing local duration, in nanoseconds, and records
    /// it as the clock's latest reading.
    fn now(&mut self) -> (r: u128)
        ensures
            final(self).retrieval_readings() == old(self).retrieval_readings().push(r),
    ;
}

// ---------------------------------------------------------------------------
// The canonical score.

/// Sum of the products of the first `n` element pairs.
pub open spec fn dot_prefix(a: Seq<i16>, b: Seq<i16>, n: int) -> int
    decreases n,
{
    if n <= 0 {
        0
    } else {
        dot_prefix(a, b, n - 1) + a[n - 1] * b[n - 1]
    }
}

/// Dot product of two equal-length vectors.
pub open spec fn dot(a: Seq<i16>, b: Seq<i16>) -> int {
    dot_prefix(a, b, a.len() as int)
}

/// `r` is the integer square root of `n`.
pub open spec fn is_isqrt(n: int, r: int) -> bool {
    0 <= r && r * r <= n < (r + 1) * (r + 1)
}

/// The integer square root (floor) of a nonnegative integer.
pub open spec fn isqrt(n: int) -> int {
    choose|r: int| is_isqrt(n, r)
}

/// The canonical cosine score in nanos: the rounded scaled quotient of the
/// dot product by the integer square root of the product of the squared
/// norms, clamped to the scale, with the sign of the dot product.
pub open spec fn cosine_nanos(a: Seq<i16>, b: Seq<i16>) -> int {
    let d = dot(a, b);
    let den = isqrt(dot(a, a) * dot(b, b));
    let absolute = if d < 0 {
        -d
    } else {
        d
    };
    let raw = (absolute * SCORE_NANOS_SCALE + den / 2) / den;
    let magnitude = if raw < SCORE_NANOS_SCALE {
        raw
    } else {
        SCORE_NANOS_SCALE as int
    };
    if d < 0 {
        -magnitude
    } else {
        magnitude
    }
}

proof fn lemma_isqrt_unique(n: int, r: int, s: int)
    requires
        is_isqrt(n, r),
        is_isqrt(n, s),
    ensures
        r == s,
{
    if r < s {
        assert((r + 1) * (r + 1) <= s * s) by (nonlinear_arith)
            requires
                0 <= r,
                r + 1 <= s,
        ;
    }
    if s < r {
        assert((s + 1) * (s + 1) <= r * r) by (nonlinear_arith)
            requires
                0 <= s,
                s + 1 <= r,
        ;
    }
}

/// Integer square root by bisection.
fn integer_sqrt(value: u128) -> (r: u128)
    ensures
        is_isqrt(value as int, r as int),
{
    if value < 2 {
        assert(value * value <= value < (value + 1) * (value + 1)) by (nonlinear_arith)
            requires
                value < 2,
        ;
        return value;
    }
    let mut lower: u128 = 1;
    let mut upper: u128 = value / 2 + 1;
    assert(((value / 2 + 1) + 1) * ((value / 2 + 1) + 1) > value) by (nonlinear_arith)
        requires
            value >= 2,
    ;
    while lower <= upper
        invariant
            1 <= lower,
            upper <= value,
            lower <= upper + 1,
            (lower - 1) * (lower - 1) <= value,
            (upper + 1) * (upper + 1) > value,
        decreases upper + 1 - lower,
    {
        let middle = lower + (upper - lower) / 2;
        match middle.checked_mul(middle) {
            Some(square) => {
                if square == value {
                    assert((middle + 1) * (middle + 1) > middle * middle) by (nonlinear_arith)
                        requires
                            middle >= 1,
                    ;
                    return middle;
                } else if square < value {
                    assert(middle <= middle * middle) by (nonlinear_arith)
                        requires
                            middle >= 1,
                    ;
                    lower = middle + 1;
                } else {
                    upper = middle - 1;
                }
            },
            None => {
                upper = middle - 1;
            },
        }
    }
    upper
}

proof fn lemma_product_bound(x: int, y: int)
    requires
        -32767 <= x <= 32767,
        -32767 <= y <= 32767,
    ensures
        -1_073_676_289 <= x * y <= 1_073_676_289,
        0 <= x * x <= 1_073_676_289,
{
    assert(-1_073_676_289 <= x * y <= 1_073_676_289) by (nonlinear_arith)
        requires
            -32767 <= x <= 32767,
            -32767 <= y <= 32767,
    ;
    assert(0 <= x * x <= 1_073_676_289) by (nonlinear_arith)
        requires
            -32767 <= x <= 32767,
    ;
}

proof fn lemma_square_sum_positive(a: Seq<i16>, n: int, i: int)
    requires
        0 <= i < n <= a.len(),
        a[i] != 0,
    ensures
        dot_prefix(a, a, n) >= 1,
    decreases n,
{
    lemma_square_sum_nonneg(a, n - 1);
    assert(a[n - 1] * a[n - 1] >= 0) by (nonlinear_arith);
    if i == n - 1 {
        assert(a[i] * a[i] >= 1) by (nonlinear_arith)
            requires
                a[i] != 0,
        ;
    } else {
        lemma_square_sum_positive(a, n - 1, i);
    }
}

proof fn lemma_square_sum_nonneg(a: Seq<i16>, n: int)
    ensures
        dot_prefix(a, a, n) >= 0,
    decreases n,
{
    if n > 0 {
        lemma_square_sum_nonneg(a, n - 1);
        assert(a[n - 1] * a[n - 1] >= 0) by (nonlinear_arith);
    }
}

/// Computes the canonical integer cosine score.
///
/// Fails only when the dimensions differ: for canonical vectors no
/// arithmetic step can overflow.
pub fn cosine_score_nanos(left: &Q15Vector, right: &Q15Vector) -> (r: Result<i64, ExactRetrievalError>)
    ensures
        left@.len() != right@.len() ==> r == Err::<i64, ExactRetrievalError>(
            ExactRetrievalError::DimensionMismatch {
                expected: left@.len() as u16,
                found: right@.len() as u16,
            },
        ),
        left@.len() == right@.len() ==> (r matches Ok(score) && score == cosine_nanos(left@, right@)),
        r matches Ok(score) ==> -SCORE_NANOS_SCALE <= score <= SCORE_NANOS_SCALE,
{
    let ld = left.dimension();
    let rd = right.dimension();
    if ld != rd {
        return Err(ExactRetrievalError::DimensionMismatch { expected: ld, found: rd });
    }
    let a = left.as_slice();
    let b = right.as_slice();
    let ghost bound: int = 1_073_676_289;
    let mut dot_acc: i128 = 0;
    let mut left_squared: u128 = 0;
    let mut right_squared: u128 = 0;
    let mut i: usize = 0;
    while i < a.len()
        invariant
            a@ == left@,
            b@ == right@,
            a@.len() == b@.len(),
            a@.len() <= MAX_VECTOR_DIMENSIONS,
            is_canonical_q15(a@),
            is_canonical_q15(b@),
            bound == 1_073_676_289,
            i <= a@.len(),
            dot_acc == dot_prefix(a@, b@, i as int),
            left_squared == dot_prefix(a@, a@, i as int),
            right_squared == dot_prefix(b@, b@, i as int),
            -(i * bound) <= dot_acc <= i * bound,
            0 <= left_squared <= i * bound,
            0 <= right_squared <= i * bound,
        decreases a@.len() - i,
    {
        let x = a[i] as i128;
        let y = b[i] as i128;
        proof {
            assert(a@[i as int] != i16::MIN);
            assert(b@[i as int] != i16::MIN);
            lemma_product_bound(x as int, y as int);
            lemma_product_bound(y as int, x as int);
        }
        dot_acc = dot_acc + x * y;
        left_squared = left_squared + ((x * x) as u128);
        right_squared = right_squared + ((y * y) as u128);
        i = i + 1;
    }
    proof {
        let wa = choose|j: int| 0 <= j < a@.len() && #[trigger] a@[j] != 0;
        lemma_square_sum_positive(a@, a@.len() as int, wa);
        let wb = choose|j: int| 0 <= j < b@.len() && #[trigger] b@[j] != 0;
        lemma_square_sum_positive(b@, b@.len() as int, wb);
        assert(left_squared * right_squared <= (4096 * bound) * (4096 * bound)) by (nonlinear_arith)
            requires
                0 <= left_squared <= 4096 * bound,
                0 <= right_squared <= 4096 * bound,
        ;
        assert(left_squared * right_squared >= 1) by (nonlinear_arith)
            requires
                1 <= left_squared,
                1 <= right_squared,
        ;
    }
    let norm_product = left_squared * right_squared;
    let denominator = integer_sqrt(norm_product);
    proof {
        assert(is_isqrt(norm_product as int, denominator as int));
        if denominator == 0 {
            assert(norm_product < 1) by (nonlinear_arith)
                requires
                    norm_product < (denominator + 1) * (denominator + 1),
                    denominator == 0,
            ;
        }
        lemma_isqrt_unique(norm_product as int, denominator as int, isqrt(norm_product as int));
    }
    let absolute: u128 = if dot_acc < 0 {
        (-dot_acc) as u128
    } else {
        dot_acc as u128
    };
    let numerator = absolute * 1_000_000_000 + denominator / 2;
    let raw = numerator / denominator;
    let magnitude: i64 = if raw < 1_000_000_000 {
        raw as i64
    } else {
        1_000_000_000
    };
    if dot_acc < 0 {
        Ok(-magnitude)
    } else {
        Ok(magnitude)
    }
}


// ---------------------------------------------------------------------------
// Validation.

/// The validation outcome of a request.
pub open spec fn request_outcome(request: ExactRetrievalRequest, limits: ExactRetrievalLimits) -> Result<
    (),
    ExactRetrievalError,
> {
    if request.limit == 0 {
        Err(ExactRetrievalError::ZeroLimit)
    } else if request.limit > limits.max_returned {
        Err(
            ExactRetrievalError::ResultLimitExceeded {
                requested: request.limit,
                maximum: limits.max_returned,
            },
        )
    } else if !(-SCORE_NANOS_SCALE <= request.minimum_score_nanos <= SCORE_NANOS_SCALE) {
        Err(ExactRetrievalError::InvalidMinimumScore)
    } else if request.minimum_margin_nanos > 2 * SCORE_NANOS_SCALE {
        Err(ExactRetrievalError::InvalidMinimumMargin)
    } else {
        Ok(())
    }
}

pub(crate) fn validate_request(request: &ExactRetrievalRequest, limits: &ExactRetrievalLimits) -> (r: Result<
    (),
    ExactRetrievalError,
>)
    ensures
        r == request_outcome(*request, *limits),
{
    if request.limit == 0 {
        return Err(ExactRetrievalError::ZeroLimit);
    }
    if request.limit > limits.max_returned {
        return Err(
            ExactRetrievalError::ResultLimitExceeded {
                requested: request.limit,
                maximum: limits.max_returned,
            },
        );
    }
    if request.minimum_score_nanos < -1_000_000_000 || request.minimum_score_nanos > 1_000_000_000 {
        return Err(ExactRetrievalError::InvalidMinimumScore);
    }
    if request.minimum_margin_nanos > 2_000_000_000 {
        return Err(ExactRetrievalError::InvalidMinimumMargin);
    }
    Ok(())
}

// ---------------------------------------------------------------------------
// Scanning.

/// Key and vector bytes that one candidate loads.
pub open spec fn candidate_bytes(c: DurableVectorRecord) -> int {
    (c.key@.len() + 2 * c.vector@.len()) as int
}

/// Bytes that the first `k` candidates load.
pub open spec fn bytes_upto(cands: Seq<DurableVectorRecord>, k: int) -> int
    decreases k,
{
    if k <= 0 {
        0
    } else {
        bytes_upto(cands, k - 1) + candidate_bytes(cands[k - 1])
    }
}

/// One of the first `k` candidates has the key `b`.
pub open spec fn candidate_key_seen(cands: Seq<DurableVectorRecord>, k: int, b: Seq<u8>) -> bool {
    exists|i: int| 0 <= i < k && cands[i].key@ == b
}

/// The failure that inspecting candidate `k` raises, assuming no earlier
/// candidate raised one.
pub open spec fn exact_fault(
    cands: Seq<DurableVectorRecord>,
    request: ExactRetrievalRequest,
    limits: ExactRetrievalLimits,
    k: int,
) -> Option<ExactRetrievalError> {
    if k >= limits.max_candidates {
        Some(ExactRetrievalError::CandidateBudgetExceeded { maximum: limits.max_candidates })
    } else if bytes_upto(cands, k + 1) > limits.max_candidate_bytes {
        Some(ExactRetrievalError::CandidateByteBudgetExceeded { maximum: limits.max_candidate_bytes })
    } else if cands[k].key@.len() == 0 {
        Some(ExactRetrievalError::EmptyCandidateKey)
    } else if candidate_key_seen(cands, k, cands[k].key@) {
        Some(ExactRetrievalError::DuplicateCandidateKey)
    } else if cands[k].vector@.len() != request.query@.len() {
        Some(
            ExactRetrievalError::DimensionMismatch {
                expected: request.query@.len() as u16,
                found: cands[k].vector@.len() as u16,
            },
        )
    } else {
        None
    }
}

/// Candidate `k` is the first one whose inspection fails.
pub open spec fn is_first_exact_fault(
    cands: Seq<DurableVectorRecord>,
    request: ExactRetrievalRequest,
    limits: ExactRetrievalLimits,
    k: int,
) -> bool {
    &&& 0 <= k < cands.len()
    &&& exact_fault(cands, request, limits, k) is Some
    &&& forall|j: int| 0 <= j < k ==> #[trigger] exact_fault(cands, request, limits, j) is None
}

/// The failure of the scan, if any candidate raises one.
pub open spec fn exact_scan_error(
    cands: Seq<DurableVectorRecord>,
    request: ExactRetrievalRequest,
    limits: ExactRetrievalLimits,
) -> Option<ExactRetrievalError> {
    if exists|k: int| is_first_exact_fault(cands, request, limits, k) {
        exact_fault(cands, request, limits, choose|k: int| is_first_exact_fault(cands, request, limits, k))
    } else {
        None
    }
}

proof fn lemma_first_exact_fault_unique(
    cands: Seq<DurableVectorRecord>,
    request: ExactRetrievalRequest,
    limits: ExactRetrievalLimits,
    k: int,
)
    requires
        is_first_exact_fault(cands, request, limits, k),
    ensures
        exact_scan_error(cands, request, limits) == exact_fault(cands, request, limits, k),
{
    let c = choose|c: int| is_first_exact_fault(cands, request, limits, c);
    assert(is_first_exact_fault(cands, request, limits, c));
    if c < k {
        assert(exact_fault(cands, request, limits, c) is None);
    }
    if c > k {
        assert(exact_fault(cands, request, limits, k) is None);
    }
}

// ---------------------------------------------------------------------------
// Ranking.

/// A ranked entry: binary key and canonical score.
pub open spec fn entry_of(c: DurableVectorRecord, q: Seq<i16>) -> (Seq<u8>, int) {
    (c.key@, cosine_nanos(q, c.vector@))
}

/// The entries of the first `k` candidates.
pub open spec fn entries_upto(cands: Seq<DurableVectorRecord>, q: Seq<i16>, k: int) -> Seq<(Seq<u8>, int)> {
    Seq::new(k as nat, |j: int| entry_of(cands[j], q))
}

/// Ranking order: higher score first, then binary key ascending.
pub open spec fn rank_order(a: (Seq<u8>, int), b: (Seq<u8>, int)) -> int {
    if a.1 > b.1 {
        -1
    } else if a.1 < b.1 {
        1
    } else {
        bytes_order(a.0, b.0)
    }
}

/// `r` holds the entries `e` in strictly increasing rank order.
pub open spec fn ranked_arrangement(r: Seq<(Seq<u8>, int)>, e: Seq<(Seq<u8>, int)>) -> bool {
    &&& r.len() == e.len()
    &&& forall|i: int| 0 <= i < r.len() ==> e.contains(#[trigger] r[i])
    &&& forall|i: int, j: int| 0 <= i < j < r.len() ==> rank_order(#[trigger] r[i], #[trigger] r[j]) < 0
}

/// The model of a match.
pub open spec fn match_model(m: ExactRetrievalMatch) -> (Seq<u8>, int) {
    (m.key@, m.score_nanos as int)
}

/// The models of matches.
pub open spec fn matches_model(ms: Seq<ExactRetrievalMatch>) -> Seq<(Seq<u8>, int)> {
    Seq::new(ms.len(), |i: int| match_model(ms[i]))
}

proof fn lemma_rank_order(a: (Seq<u8>, int), b: (Seq<u8>, int), c: (Seq<u8>, int))
    ensures
        rank_order(a, b) == -rank_order(b, a),
        rank_order(a, b) == 0 ==> a.0 == b.0,
        rank_order(a, b) < 0 && rank_order(b, c) < 0 ==> rank_order(a, c) < 0,
{
    lemma_bytes_order_antisym(a.0, b.0);
    lemma_bytes_order_antisym(b.0, c.0);
    lemma_bytes_order_antisym(a.0, c.0);
    if bytes_order(a.0, b.0) <= 0 && bytes_order(b.0, c.0) <= 0 {
        lemma_bytes_order_trans(a.0, b.0, c.0);
    }
}

/// Binary search for the rank position of a new entry with a fresh key.
fn search_rank(ranked: &Vec<ExactRetrievalMatch>, key: &[u8], score: i64) -> (r: usize)
    requires
        forall|i: int, j: int| 0 <= i < j < ranked@.len() ==> rank_order(match_model(#[trigger] ranked@[i]), match_model(#[trigger] ranked@[j])) < 0,
        forall|i: int| 0 <= i < ranked@.len() ==> (#[trigger] ranked@[i]).key@ != key@,
    ensures
        r <= ranked@.len(),
        forall|i: int| 0 <= i < r ==> rank_order(match_model(#[trigger] ranked@[i]), (key@, score as int)) < 0,
        forall|i: int| r <= i < ranked@.len() ==> rank_order((key@, score as int), match_model(#[trigger] ranked@[i])) < 0,
{
    let ghost e = (key@, score as int);
    let mut lo: usize = 0;
    let mut hi: usize = ranked.len();
    while lo < hi
        invariant
            e == (key@, score as int),
            forall|i: int, j: int| 0 <= i < j < ranked@.len() ==> rank_order(match_model(#[trigger] ranked@[i]), match_model(#[trigger] ranked@[j])) < 0,
            forall|i: int| 0 <= i < ranked@.len() ==> (#[trigger] ranked@[i]).key@ != key@,
            lo <= hi <= ranked@.len(),
            forall|i: int| 0 <= i < lo ==> rank_order(match_model(#[trigger] ranked@[i]), e) < 0,
            forall|i: int| hi <= i < ranked@.len() ==> rank_order(e, match_model(#[trigger] ranked@[i])) < 0,
        decreases hi - lo,
    {
        let mid = lo + (hi - lo) / 2;
        let entry = &ranked[mid];
        let before = if entry.score_nanos > score {
            true
        } else if entry.score_nanos < score {
            false
        } else {
            match compare_bytes(entry.key.as_slice(), key) {
                Comparison::Less => true,
                _ => false,
            }
        };
        let ghost m = match_model(ranked@[mid as int]);
        proof {
            lemma_rank_order(m, e, e);
            assert(m.0 != e.0);
        }
        if before {
            proof {
                assert forall|i: int| 0 <= i < mid + 1 implies rank_order(match_model(#[trigger] ranked@[i]), e) < 0 by {
                    if i < mid {
                        lemma_rank_order(match_model(ranked@[i]), m, e);
                    }
                }
            }
            lo = mid + 1;
        } else {
            proof {
                assert forall|i: int| mid <= i < ranked@.len() implies rank_order(e, match_model(#[trigger] ranked@[i])) < 0 by {
                    if i > mid {
                        lemma_rank_order(e, m, match_model(ranked@[i]));
                    }
                }
            }
            hi = mid;
        }
    }
    lo
}


proof fn lemma_insert_ranked(old: Seq<(Seq<u8>, int)>, new: Seq<(Seq<u8>, int)>, at: int, e: (Seq<u8>, int))
    requires
        0 <= at <= old.len(),
        new == old.insert(at, e),
        forall|i: int, j: int| 0 <= i < j < old.len() ==> rank_order(#[trigger] old[i], #[trigger] old[j]) < 0,
        forall|i: int| 0 <= i < at ==> rank_order(#[trigger] old[i], e) < 0,
        forall|i: int| at <= i < old.len() ==> rank_order(e, #[trigger] old[i]) < 0,
    ensures
        forall|i: int, j: int| 0 <= i < j < new.len() ==> rank_order(#[trigger] new[i], #[trigger] new[j]) < 0,
        forall|i: int| 0 <= i < new.len() ==> (#[trigger] new[i] == e || old.contains(new[i])),
{
    assert forall|i: int, j: int| 0 <= i < j < new.len() implies rank_order(#[trigger] new[i], #[trigger] new[j]) < 0 by {
        if j < at {
            assert(new[i] == old[i] && new[j] == old[j]);
        } else if j == at {
            assert(new[i] == old[i]);
        } else if i == at {
            assert(new[j] == old[j - 1]);
        } else if i < at {
            assert(new[i] == old[i] && new[j] == old[j - 1]);
        } else {
            assert(new[i] == old[i - 1] && new[j] == old[j - 1]);
        }
    }
    assert forall|i: int| 0 <= i < new.len() implies (#[trigger] new[i] == e || old.contains(new[i])) by {
        if i < at {
            assert(new[i] == old[i]);
        } else if i > at {
            assert(new[i] == old[i - 1]);
        }
    }
}

/// The scan state after the first `k` candidates.
pub open spec fn exact_state(
    keys: Seq<&[u8]>,
    ranked: Seq<ExactRetrievalMatch>,
    bytes: u64,
    cands: Seq<DurableVectorRecord>,
    request: ExactRetrievalRequest,
    limits: ExactRetrievalLimits,
    k: int,
) -> bool {
    &&& 0 <= k <= cands.len()
    &&& keys_sorted(keys)
    &&& forall|b: Seq<u8>|
        #![trigger key_listed(keys, b)]
        #![trigger candidate_key_seen(cands, k, b)]
        key_listed(keys, b) <==> candidate_key_seen(cands, k, b)
    &&& forall|i: int| 0 <= i < k ==> #[trigger] exact_fault(cands, request, limits, i) is None
    &&& bytes == bytes_upto(cands, k)
    &&& ranked_arrangement(matches_model(ranked), entries_upto(cands, request.query@, k))
    &&& forall|i: int| 0 <= i < ranked.len() ==> -SCORE_NANOS_SCALE <= (#[trigger] ranked[i]).score_nanos <= SCORE_NANOS_SCALE
}

/// Inspects candidate `k`: budgets, key rules, dimension, and ranked
/// insertion of its score.
fn admit_candidate<'r>(
    cand: &'r DurableVectorRecord,
    keys: &mut Vec<&'r [u8]>,
    ranked: &mut Vec<ExactRetrievalMatch>,
    bytes: &mut u64,
    scanned: u64,
    request: &ExactRetrievalRequest,
    limits: &ExactRetrievalLimits,
    Ghost(cands): Ghost<Seq<DurableVectorRecord>>,
) -> (r: Result<(), ExactRetrievalError>)
    requires
        scanned < cands.len(),
        cands[scanned as int] == *cand,
        exact_state(old(keys)@, old(ranked)@, *old(bytes), cands, *request, *limits, scanned as int),
    ensures
        match r {
            Ok(()) => exact_state(final(keys)@, final(ranked)@, *final(bytes), cands, *request, *limits, scanned + 1),
            Err(e) => is_first_exact_fault(cands, *request, *limits, scanned as int) && exact_fault(cands, *request, *limits, scanned as int) == Some(e),
        },
{
    let ghost k = scanned as int;
    let ghost q = request.query@;
    if scanned >= limits.max_candidates {
        return Err(ExactRetrievalError::CandidateBudgetExceeded { maximum: limits.max_candidates });
    }
    let dimension = cand.vector.dimension();
    let key_bytes = cand.key.len() as u64;
    let vector_bytes = (dimension as u64) * 2;
    let total = match key_bytes.checked_add(vector_bytes) {
        Some(candidate_bytes) => bytes.checked_add(candidate_bytes),
        None => None,
    };
    let total = match total {
        Some(t) => t,
        None => {
            return Err(ExactRetrievalError::CandidateByteBudgetExceeded { maximum: limits.max_candidate_bytes });
        },
    };
    if total > limits.max_candidate_bytes {
        return Err(ExactRetrievalError::CandidateByteBudgetExceeded { maximum: limits.max_candidate_bytes });
    }
    if cand.key.len() == 0 {
        return Err(ExactRetrievalError::EmptyCandidateKey);
    }
    let (found, pos) = search_key(&*keys, cand.key.as_slice());
    proof {
        assert(found == key_listed(keys@, cand.key@));
    }
    if found {
        return Err(ExactRetrievalError::DuplicateCandidateKey);
    }
    let query_dimension = request.query.dimension();
    if dimension != query_dimension {
        return Err(ExactRetrievalError::DimensionMismatch { expected: query_dimension, found: dimension });
    }
    let score = match cosine_score_nanos(&request.query, &cand.vector) {
        Ok(score) => score,
        Err(e) => {
            return Err(e);
        },
    };
    let ghost old_keys = keys@;
    keys.insert(pos, cand.key.as_slice());
    proof {
        lemma_insert_key(old_keys, keys@, pos as int, keys@[pos as int]);
        assert forall|b: Seq<u8>| key_listed(keys@, b) <==> candidate_key_seen(cands, k + 1, b) by {
            if candidate_key_seen(cands, k + 1, b) {
                let i = choose|i: int| 0 <= i < k + 1 && cands[i].key@ == b;
                if i < k {
                    assert(candidate_key_seen(cands, k, b));
                }
            }
            if candidate_key_seen(cands, k, b) {
                let i = choose|i: int| 0 <= i < k && cands[i].key@ == b;
                assert(0 <= i < k + 1 && cands[i].key@ == b);
            }
            if b == cand.key@ {
                assert(0 <= k < k + 1 && cands[k].key@ == b);
            }
        }
    }
    let ghost e = (cand.key@, score as int);
    let ghost old_model = matches_model(ranked@);
    let ghost prev = entries_upto(cands, q, k);
    proof {
        assert forall|i: int| 0 <= i < ranked@.len() implies (#[trigger] ranked@[i]).key@ != cand.key@ by {
            assert(old_model[i] == match_model(ranked@[i]));
            assert(prev.contains(old_model[i]));
            let j = choose|j: int| 0 <= j < prev.len() && prev[j] == old_model[i];
            if ranked@[i].key@ == cand.key@ {
                assert(0 <= j < k && cands[j].key@ == cand.key@);
                assert(candidate_key_seen(cands, k, cand.key@));
            }
        }
    }
    proof {
        assert forall|i: int, j: int| 0 <= i < j < ranked@.len() implies rank_order(match_model(#[trigger] ranked@[i]), match_model(#[trigger] ranked@[j])) < 0 by {
            assert(old_model[i] == match_model(ranked@[i]) && old_model[j] == match_model(ranked@[j]));
        }
    }
    let at = search_rank(&*ranked, cand.key.as_slice(), score);
    ranked.insert(at, ExactRetrievalMatch { key: crate::value::copy_bytes(cand.key.as_slice()), score_nanos: score });
    proof {
        let new_model = matches_model(ranked@);
        assert(new_model =~= old_model.insert(at as int, e));
        lemma_insert_ranked(old_model, new_model, at as int, e);
        let next = entries_upto(cands, q, k + 1);
        assert(e == entry_of(cands[k], q));
        assert forall|i: int| 0 <= i < new_model.len() implies next.contains(#[trigger] new_model[i]) by {
            if new_model[i] == e {
                assert(next[k] == e);
            } else {
                let j = choose|j: int| 0 <= j < old_model.len() && old_model[j] == new_model[i];
                assert(prev.contains(old_model[j]));
                let t = choose|t: int| 0 <= t < prev.len() && prev[t] == old_model[j];
                assert(next[t] == prev[t]);
            }
        }
        assert forall|i: int| 0 <= i < ranked@.len() implies -SCORE_NANOS_SCALE <= (#[trigger] ranked@[i]).score_nanos <= SCORE_NANOS_SCALE by {
            if i < at {
                assert(ranked@[i] == old(ranked)@[i]);
            } else if i > at {
                assert(ranked@[i] == old(ranked)@[i - 1]);
            }
        }
    }
    *bytes = total;
    assert(exact_fault(cands, *request, *limits, k) is None);
    Ok(())
}


// ---------------------------------------------------------------------------
// Policy and execution.

/// The non-negative best/runner-up margin (a negative gap counts as zero).
pub open spec fn margin_of(best: int, runner_up: int) -> int {
    if best - runner_up < 0 {
        0
    } else {
        best - runner_up
    }
}

/// The outcome of the ranked entries under the request policy: abstain on
/// no candidates, a best score below the threshold, or a margin below the
/// minimum; otherwise the first `limit` entries.
pub open spec fn policy_holds(
    out: ExactRetrievalOutcome,
    ranked: Seq<(Seq<u8>, int)>,
    scanned: u64,
    request: ExactRetrievalRequest,
) -> bool {
    if ranked.len() == 0 {
        out == ExactRetrievalOutcome::Abstained(
            ExactAbstention {
                reason: ExactAbstentionReason::NoCandidates,
                best_score_nanos: None,
                runner_up_score_nanos: None,
                scanned_candidates: scanned,
            },
        )
    } else {
        let best = ranked[0].1;
        let runner_up: Option<i64> = if ranked.len() > 1 {
            Some(ranked[1].1 as i64)
        } else {
            None
        };
        if best < request.minimum_score_nanos {
            out == ExactRetrievalOutcome::Abstained(
                ExactAbstention {
                    reason: ExactAbstentionReason::BelowThreshold,
                    best_score_nanos: Some(best as i64),
                    runner_up_score_nanos: runner_up,
                    scanned_candidates: scanned,
                },
            )
        } else if ranked.len() > 1 && margin_of(best, ranked[1].1) < request.minimum_margin_nanos {
            out == ExactRetrievalOutcome::Abstained(
                ExactAbstention {
                    reason: ExactAbstentionReason::Ambiguous,
                    best_score_nanos: Some(best as i64),
                    runner_up_score_nanos: runner_up,
                    scanned_candidates: scanned,
                },
            )
        } else {
            match out {
                ExactRetrievalOutcome::Matches { matches, scanned_candidates } => scanned_candidates
                    == scanned && matches_model(matches@) == ranked.take(
                    if ranked.len() < request.limit {
                        ranked.len() as int
                    } else {
                        request.limit as int
                    },
                ),
                _ => false,
            }
        }
    }
}

fn apply_policy(ranked: Vec<ExactRetrievalMatch>, scanned: u64, request: &ExactRetrievalRequest) -> (r: ExactRetrievalOutcome)
    requires
        forall|i: int| 0 <= i < ranked@.len() ==> -SCORE_NANOS_SCALE <= (#[trigger] ranked@[i]).score_nanos <= SCORE_NANOS_SCALE,
    ensures
        policy_holds(r, matches_model(ranked@), scanned, *request),
{
    let ghost model = matches_model(ranked@);
    if ranked.len() == 0 {
        return ExactRetrievalOutcome::Abstained(
            ExactAbstention {
                reason: ExactAbstentionReason::NoCandidates,
                best_score_nanos: None,
                runner_up_score_nanos: None,
                scanned_candidates: scanned,
            },
        );
    }
    let best = ranked[0].score_nanos;
    let runner_up = if ranked.len() > 1 {
        Some(ranked[1].score_nanos)
    } else {
        None
    };
    proof {
        assert(model[0].1 == best);
        if ranked@.len() > 1 {
            assert(model[1].1 == ranked@[1].score_nanos);
        }
    }
    if best < request.minimum_score_nanos {
        return ExactRetrievalOutcome::Abstained(
            ExactAbstention {
                reason: ExactAbstentionReason::BelowThreshold,
                best_score_nanos: Some(best),
                runner_up_score_nanos: runner_up,
                scanned_candidates: scanned,
            },
        );
    }
    match runner_up {
        Some(score) => {
            let gap = best - score;
            let margin: u64 = if gap < 0 {
                0
            } else {
                gap as u64
            };
            if margin < request.minimum_margin_nanos {
                return ExactRetrievalOutcome::Abstained(
                    ExactAbstention {
                        reason: ExactAbstentionReason::Ambiguous,
                        best_score_nanos: Some(best),
                        runner_up_score_nanos: runner_up,
                        scanned_candidates: scanned,
                    },
                );
            }
        },
        None => {},
    }
    let mut matches = ranked;
    matches.truncate(request.limit);
    proof {
        assert(matches_model(matches@) =~= model.take(
            if model.len() < request.limit {
                model.len() as int
            } else {
                request.limit as int
            },
        ));
    }
    ExactRetrievalOutcome::Matches { matches, scanned_candidates: scanned }
}

fn check_exact_timeout<C: ExactRetrievalClock>(clock: &mut C, deadline: u128) -> (r: Result<(), ExactRetrievalError>)
    ensures
        final(clock).retrieval_readings().len() == old(clock).retrieval_readings().len() + 1,
        extends(old(clock).retrieval_readings(), final(clock).retrieval_readings()),
        r is Ok || r == Err::<(), ExactRetrievalError>(ExactRetrievalError::TimedOut),
        r is Err <==> final(clock).retrieval_readings().last() >= deadline,
        deadline == 0 ==> r == Err::<(), ExactRetrievalError>(ExactRetrievalError::TimedOut),
{
    let ghost before = clock.retrieval_readings();
    let n = clock.now();
    proof {
        assert(clock.retrieval_readings().subrange(0, before.len() as int) =~= before);
    }
    if n >= deadline {
        Err(ExactRetrievalError::TimedOut)
    } else {
        Ok(())
    }
}

/// What one retrieval may return: the validation error for an invalid
/// request; else the policy outcome over the ranked candidates, `TimedOut`,
/// or the failure of the first failing candidate.
pub open spec fn retrieves_to(
    cands: Seq<DurableVectorRecord>,
    request: ExactRetrievalRequest,
    limits: ExactRetrievalLimits,
    r: Result<ExactRetrievalOutcome, ExactRetrievalError>,
) -> bool {
    match request_outcome(request, limits) {
        Err(v) => r == Err::<ExactRetrievalOutcome, ExactRetrievalError>(v),
        Ok(()) => match r {
            Ok(out) => exact_scan_error(cands, request, limits) is None && exists|ranked: Seq<(Seq<u8>, int)>|
                #[trigger] ranked_arrangement(ranked, entries_upto(cands, request.query@, cands.len() as int))
                    && policy_holds(out, ranked, cands.len() as u64, request),
            Err(e) => e == ExactRetrievalError::TimedOut || exact_scan_error(cands, request, limits) == Some(e),
        },
    }
}

/// Executes durable exact retrieval using a caller-supplied monotonic clock.
/// Errors return no partial ranking.
pub fn retrieve_exact_with_clock<C: ExactRetrievalClock>(
    candidates: &[DurableVectorRecord],
    request: &ExactRetrievalRequest,
    limits: &ExactRetrievalLimits,
    clock: &mut C,
) -> (r: Result<ExactRetrievalOutcome, ExactRetrievalError>)
    ensures
        retrieves_to(candidates@, *request, *limits, r),
        extends(old(clock).retrieval_readings(), final(clock).retrieval_readings()),
        r matches Err(ExactRetrievalError::TimedOut) ==> timed_out_since(
            old(clock).retrieval_readings(),
            final(clock).retrieval_readings(),
            limits.timeout_nanos,
        ),
{
    let ghost start = clock.retrieval_readings();
    proof {
        assert(start.subrange(0, start.len() as int) =~= start);
    }
    match validate_request(request, limits) {
        Ok(()) => {},
        Err(e) => {
            return Err(e);
        },
    }
    let ghost cands = candidates@;
    let started = clock.now();
    let ghost first = clock.retrieval_readings();
    proof {
        assert(first.subrange(0, first.len() as int) =~= first);
        assert(first.subrange(0, start.len() as int) =~= start);
    }
    let deadline = match started.checked_add(limits.timeout_nanos) {
        Some(d) => d,
        None => u128::MAX,
    };
    assert(deadline == deadline_after(started, limits.timeout_nanos));
    let checked = check_exact_timeout(clock, deadline);
    proof {
        lemma_extends_trans(start, first, clock.retrieval_readings());
        if checked is Err {
            assert(clock.retrieval_readings()[clock.retrieval_readings().len() - 1] >= deadline);
            assert(reached_since(first, clock.retrieval_readings(), deadline));
            lemma_timed_out(start, first, clock.retrieval_readings(), started, limits.timeout_nanos);
        }
    }
    match checked {
        Ok(()) => {},
        Err(e) => {
            return Err(e);
        },
    }
    let mut keys: Vec<&[u8]> = Vec::new();
    let mut ranked: Vec<ExactRetrievalMatch> = Vec::new();
    let mut bytes: u64 = 0;
    let mut scanned: u64 = 0;
    let mut i: usize = 0;
    proof {
        assert(matches_model(ranked@) =~= entries_upto(cands, request.query@, 0));
    }
    while i < candidates.len()
        invariant
            cands == candidates@,
            request_outcome(*request, *limits) is Ok,
            i <= cands.len(),
            scanned == i,
            exact_state(keys@, ranked@, bytes, cands, *request, *limits, i as int),
            start == old(clock).retrieval_readings(),
            first == start.push(started),
            deadline == deadline_after(started, limits.timeout_nanos),
            extends(first, clock.retrieval_readings()),
            extends(start, clock.retrieval_readings()),
        decreases cands.len() - i,
    {
        let ghost before = clock.retrieval_readings();
        let checked = check_exact_timeout(clock, deadline);
        proof {
            lemma_extends_trans(first, before, clock.retrieval_readings());
            lemma_extends_trans(start, before, clock.retrieval_readings());
            if checked is Err {
                assert(clock.retrieval_readings()[clock.retrieval_readings().len() - 1] >= deadline);
                assert(reached_since(before, clock.retrieval_readings(), deadline));
                lemma_reached_widen(first, before, clock.retrieval_readings(), deadline);
                lemma_timed_out(start, first, clock.retrieval_readings(), started, limits.timeout_nanos);
            }
        }
        match checked {
            Ok(()) => {},
            Err(e) => {
                return Err(e);
            },
        }
        match admit_candidate(&candidates[i], &mut keys, &mut ranked, &mut bytes, scanned, request, limits, Ghost(cands)) {
            Ok(()) => {},
            Err(e) => {
                proof {
                    lemma_first_exact_fault_unique(cands, *request, *limits, i as int);
                }
                return Err(e);
            },
        }
        scanned = scanned + 1;
        i = i + 1;
    }
    let ghost before = clock.retrieval_readings();
    let checked = check_exact_timeout(clock, deadline);
    proof {
        lemma_extends_trans(first, before, clock.retrieval_readings());
        lemma_extends_trans(start, before, clock.retrieval_readings());
        if checked is Err {
            assert(clock.retrieval_readings()[clock.retrieval_readings().len() - 1] >= deadline);
            assert(reached_since(before, clock.retrieval_readings(), deadline));
            lemma_reached_widen(first, before, clock.retrieval_readings(), deadline);
            lemma_timed_out(start, first, clock.retrieval_readings(), started, limits.timeout_nanos);
        }
    }
    match checked {
        Ok(()) => {},
        Err(e) => {
            return Err(e);
        },
    }
    proof {
        if exists|k: int| is_first_exact_fault(cands, *request, *limits, k) {
            let k = choose|k: int| is_first_exact_fault(cands, *request, *limits, k);
            assert(exact_fault(cands, *request, *limits, k) is None);
        }
    }
    let ghost model = matches_model(ranked@);
    let out = apply_policy(ranked, scanned, request);
    proof {
        assert(ranked_arrangement(model, entries_upto(cands, request.query@, cands.len() as int)));
    }
    Ok(out)
}

/// Executes durable exact retrieval using the process monotonic clock.
pub fn retrieve_exact(
    candidates: &[DurableVectorRecord],
    request: &ExactRetrievalRequest,
    limits: &ExactRetrievalLimits,
) -> (r: Result<ExactRetrievalOutcome, ExactRetrievalError>)
    ensures
        retrieves_to(candidates@, *request, *limits, r),
        r matches Err(ExactRetrievalError::TimedOut) ==> exists|readings: Seq<u128>|
            timed_out_since(Seq::empty(), readings, limits.timeout_nanos),
{
    let mut clock = crate::engine::SystemClock::default();
    let r = retrieve_exact_with_clock(candidates, request, limits, &mut clock);
    proof {
        if r matches Err(ExactRetrievalError::TimedOut) {
            assert(timed_out_since(Seq::empty(), clock.retrieval_readings(), limits.timeout_nanos));
        }
    }
    r
}

impl ExactRetrievalClock for crate::engine::SystemClock {
    closed spec fn retrieval_readings(&self) -> Seq<u128> {
        crate::query::MonotonicClock::readings(self)
    }

    fn now(&mut self) -> (r: u128) {
        crate::query::MonotonicClock::now(self)
    }
}

} // verus!
