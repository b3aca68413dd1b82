//! Deterministic reciprocal-rank fusion under hybrid semantics v1.
use vstd::prelude::*;

use crate::canonical::{ExactAbstentionReason, ExactRetrievalOutcome};
use crate::document::copy_range;
use crate::lexical::{LexicalAbstentionReason, LexicalOutcome};
use crate::value::{bytes_order, compare_bytes, lemma_bytes_order_antisym, lemma_bytes_order_trans, Comparison};

verus! {

/// Fixed RRF rank constant.
pub const HYBRID_RRF_CONSTANT: u64 = 60;

const CONTRIBUTION_SCALE: u64 = 1_000_000_000;

const MAX_WEIGHT: u32 = 1_000_000;

/// Complete fusion request.
#[derive(Clone, Debug, PartialEq, Eq)]
pub struct HybridRequest {
    /// Positive lexical branch weight.
    pub lexical_weight: u32,
    /// Positive exact-vector branch weight.
    pub vector_weight: u32,
    /// Maximum returned fused matches.
    pub limit: usize,
}

/// Preserved reason for an absent branch.
#[derive(Clone, Copy, Debug, PartialEq, Eq, Structural)]
pub enum HybridBranchAbsence {
    /// Lexical branch had no candidates.
    LexicalNoCandidates,
    /// Exact branch had no candidates.
    VectorNoCandidates,
    /// Exact branch was below its threshold.
    VectorBelowThreshold,
    /// Exact branch was ambiguous under margin policy.
    VectorAmbiguous,
}

/// Full per-result fusion explanation.
#[derive(Clone, Copy, Debug, PartialEq, Eq, Structural)]
pub struct HybridExplanation {
    /// One-based lexical rank.
    pub lexical_rank: Option<u64>,
    /// Canonical BM25F score.
    pub lexical_score_nanos: Option<i64>,
    /// One-based exact-vector rank.
    pub vector_rank: Option<u64>,
    /// Canonical integer cosine score.
    pub vector_score_nanos: Option<i64>,
    /// Integer lexical contribution.
    pub lexical_contribution: u64,
    /// Integer vector contribution.
    pub vector_contribution: u64,
    /// Checked contribution sum.
    pub fusion_score: u64,
    /// One-based final rank.
    pub final_rank: u64,
}

/// One canonical fused match.
#[derive(Clone, Debug, PartialEq, Eq)]
pub struct HybridMatch {
    /// Binary object key.
    pub key: Vec<u8>,
    /// Explainable fusion components.
    pub explanation: HybridExplanation,
}

/// Both branches abstained.
#[derive(Clone, Copy, Debug, PartialEq, Eq, Structural)]
pub struct HybridAbstention {
    /// Lexical reason.
    pub lexical: HybridBranchAbsence,
    /// Exact-vector reason.
    pub vector: HybridBranchAbsence,
}

/// Complete hybrid outcome.
#[derive(Clone, Debug, PartialEq, Eq)]
pub enum HybridOutcome {
    /// Fused or explicit single-modality matches.
    Matches {
        /// Final matches.
        matches: Vec<HybridMatch>,
        /// Preserved lexical absence.
        lexical_absence: Option<HybridBranchAbsence>,
        /// Preserved vector absence.
        vector_absence: Option<HybridBranchAbsence>,
    },
    /// Both branches abstained.
    Abstained(HybridAbstention),
}

/// Fusion failure.
#[derive(Clone, Copy, Debug, PartialEq, Eq, Structural)]
pub enum HybridError {
    /// Weights must be positive and bounded.
    InvalidWeight,
    /// At least one result must be requested.
    ZeroLimit,
    /// A branch unexpectedly repeats one key.
    DuplicateBranchKey,
    /// Checked integer arithmetic failed.
    ArithmeticOverflow,
}

/// The description of each HybridError.
pub open spec fn hybrid_error_text(e: HybridError) -> Seq<char> {
    match e {
        HybridError::InvalidWeight => "hybrid branch weights must be in 1..=1000000"@,
        HybridError::ZeroLimit => "hybrid result limit must be nonzero"@,
        HybridError::DuplicateBranchKey => "hybrid branch contains a duplicate key"@,
        HybridError::ArithmeticOverflow => "hybrid contribution arithmetic overflow"@,
    }
}

impl HybridError {
    /// The human-readable description of the failure.
    pub fn message(&self) -> (r: &'static str)
        ensures
            r@ == hybrid_error_text(*self),
    {
        match self {
            HybridError::InvalidWeight => "hybrid branch weights must be in 1..=1000000",
            HybridError::ZeroLimit => "hybrid result limit must be nonzero",
            HybridError::DuplicateBranchKey => "hybrid branch contains a duplicate key",
            HybridError::ArithmeticOverflow => "hybrid contribution arithmetic overflow",
        }
    }
}

// ---------------------------------------------------------------------------
// Specification.

/// The ranked matches of the lexical branch.
pub open spec fn lexical_branch(o: LexicalOutcome) -> Seq<(Seq<u8>, i64)> {
    match o {
        LexicalOutcome::Matches { matches, .. } => Seq::new(
            matches@.len(),
            |i: int| (matches@[i].key@, matches@[i].score_nanos),
        ),
        LexicalOutcome::Abstained(_) => Seq::empty(),
    }
}

/// The ranked matches of the exact-vector branch.
pub open spec fn vector_branch(o: ExactRetrievalOutcome) -> Seq<(Seq<u8>, i64)> {
    match o {
        ExactRetrievalOutcome::Matches { matches, .. } => Seq::new(
            matches@.len(),
            |i: int| (matches@[i].key@, matches@[i].score_nanos),
        ),
        ExactRetrievalOutcome::Abstained(_) => Seq::empty(),
    }
}

/// Why the lexical branch is absent, if it is.
pub open spec fn lexical_absence(o: LexicalOutcome) -> Option<HybridBranchAbsence> {
    match o {
        LexicalOutcome::Matches { .. } => None,
        LexicalOutcome::Abstained(_) => Some(HybridBranchAbsence::LexicalNoCandidates),
    }
}

/// Why the exact-vector branch is absent, if it is.
pub open spec fn vector_absence(o: ExactRetrievalOutcome) -> Option<HybridBranchAbsence> {
    match o {
        ExactRetrievalOutcome::Matches { .. } => None,
        ExactRetrievalOutcome::Abstained(a) => Some(
            match a.reason {
                ExactAbstentionReason::NoCandidates => HybridBranchAbsence::VectorNoCandidates,
                ExactAbstentionReason::BelowThreshold => HybridBranchAbsence::VectorBelowThreshold,
                ExactAbstentionReason::Ambiguous => HybridBranchAbsence::VectorAmbiguous,
            },
        ),
    }
}

/// Both weights lie in `1..=1000000`.
pub open spec fn weights_valid(r: HybridRequest) -> bool {
    1 <= r.lexical_weight <= 1_000_000 && 1 <= r.vector_weight <= 1_000_000
}

/// `k` is a key of the branch.
pub open spec fn has_key(s: Seq<(Seq<u8>, i64)>, k: Seq<u8>) -> bool {
    exists|i: int| 0 <= i < s.len() && (#[trigger] s[i]).0 == k
}

/// The position of `k` in the branch.
pub open spec fn key_index(s: Seq<(Seq<u8>, i64)>, k: Seq<u8>) -> int {
    choose|i: int| 0 <= i < s.len() && (#[trigger] s[i]).0 == k
}

/// No key occurs twice in the branch.
pub open spec fn keys_distinct(s: Seq<(Seq<u8>, i64)>) -> bool {
    forall|i: int, j: int| 0 <= i < j < s.len() ==> (#[trigger] s[i]).0 != (#[trigger] s[j]).0
}

/// The one-based rank of `k` in the branch.
pub open spec fn branch_rank(s: Seq<(Seq<u8>, i64)>, k: Seq<u8>) -> Option<u64> {
    if has_key(s, k) {
        Some((key_index(s, k) + 1) as u64)
    } else {
        None
    }
}

/// The score of `k` in the branch.
pub open spec fn branch_score(s: Seq<(Seq<u8>, i64)>, k: Seq<u8>) -> Option<i64> {
    if has_key(s, k) {
        Some(s[key_index(s, k)].1)
    } else {
        None
    }
}

/// The RRF contribution of a rank: `weight * 10^9 / (60 + rank)`, rounded
/// down, or zero when the branch does not rank the key.
pub open spec fn contribution_of(weight: u32, rank: Option<u64>) -> u64 {
    match rank {
        None => 0,
        Some(r) => ((weight * 1_000_000_000) / (HYBRID_RRF_CONSTANT + r)) as u64,
    }
}

/// The explanation of key `k` at final rank `final_rank`.
pub open spec fn explanation_of(
    l: Seq<(Seq<u8>, i64)>,
    v: Seq<(Seq<u8>, i64)>,
    req: HybridRequest,
    k: Seq<u8>,
    final_rank: u64,
) -> HybridExplanation {
    let lc = contribution_of(req.lexical_weight, branch_rank(l, k));
    let vc = contribution_of(req.vector_weight, branch_rank(v, k));
    HybridExplanation {
        lexical_rank: branch_rank(l, k),
        lexical_score_nanos: branch_score(l, k),
        vector_rank: branch_rank(v, k),
        vector_score_nanos: branch_score(v, k),
        lexical_contribution: lc,
        vector_contribution: vc,
        fusion_score: (lc + vc) as u64,
        final_rank,
    }
}

/// `a` ranks strictly before `b`: a higher fusion score, then the smaller
/// binary key.
pub open spec fn fused_before(a: (Seq<u8>, HybridExplanation), b: (Seq<u8>, HybridExplanation)) -> bool {
    a.1.fusion_score > b.1.fusion_score || (a.1.fusion_score == b.1.fusion_score && bytes_order(a.0, b.0) < 0)
}

/// The model of a fused match.
pub open spec fn match_model(m: HybridMatch) -> (Seq<u8>, HybridExplanation) {
    (m.key@, m.explanation)
}

pub open spec fn matches_model(ms: Seq<HybridMatch>) -> Seq<(Seq<u8>, HybridExplanation)> {
    Seq::new(ms.len(), |i: int| match_model(ms[i]))
}

/// The failure of fusing two present branches, if any: a repeated key in
/// either branch, then a rank too large for the checked arithmetic.
pub open spec fn fusion_fault(l: Seq<(Seq<u8>, i64)>, v: Seq<(Seq<u8>, i64)>) -> Option<HybridError> {
    if !keys_distinct(l) || !keys_distinct(v) {
        Some(HybridError::DuplicateBranchKey)
    } else if HYBRID_RRF_CONSTANT + l.len() > u64::MAX || HYBRID_RRF_CONSTANT + v.len() > u64::MAX {
        Some(HybridError::ArithmeticOverflow)
    } else {
        None
    }
}

/// `out` is the fused ranking: every key of either branch, explained and
/// ordered by score then key, cut to the limit, with one-based final
/// ranks.
pub open spec fn fused_ranking(
    l: Seq<(Seq<u8>, i64)>,
    v: Seq<(Seq<u8>, i64)>,
    req: HybridRequest,
    out: Seq<(Seq<u8>, HybridExplanation)>,
) -> bool {
    &&& out.len() <= req.limit
    &&& forall|i: int| 0 <= i < out.len() ==> (has_key(l, (#[trigger] out[i]).0) || has_key(v, out[i].0)) && out[i].1
        == explanation_of(l, v, req, out[i].0, (i + 1) as u64)
    &&& forall|i: int, j: int| 0 <= i < j < out.len() ==> fused_before(#[trigger] out[i], #[trigger] out[j])
    &&& forall|k: Seq<u8>|
        (has_key(l, k) || has_key(v, k)) && !(exists|i: int| 0 <= i < out.len() && (#[trigger] out[i]).0 == k) ==> {
            &&& out.len() == req.limit
            &&& fused_before(out[out.len() - 1], (k, explanation_of(l, v, req, k, 0)))
        }
}

// ---------------------------------------------------------------------------
// Order lemmas.

proof fn lemma_before_trans(a: (Seq<u8>, HybridExplanation), b: (Seq<u8>, HybridExplanation), c: (Seq<u8>, HybridExplanation))
    requires
        fused_before(a, b),
        fused_before(b, c),
    ensures
        fused_before(a, c),
{
    if a.1.fusion_score == b.1.fusion_score && b.1.fusion_score == c.1.fusion_score {
        lemma_bytes_order_trans(a.0, b.0, c.0);
    }
}

proof fn lemma_before_total(a: (Seq<u8>, HybridExplanation), b: (Seq<u8>, HybridExplanation))
    requires
        a.0 != b.0,
    ensures
        fused_before(a, b) || fused_before(b, a),
        !(fused_before(a, b) && fused_before(b, a)),
{
    lemma_bytes_order_antisym(a.0, b.0);
}

proof fn lemma_key_index(s: Seq<(Seq<u8>, i64)>, i: int)
    requires
        keys_distinct(s),
        0 <= i < s.len(),
    ensures
        has_key(s, s[i].0),
        key_index(s, s[i].0) == i,
{
    let k = s[i].0;
    assert(has_key(s, k));
    let j = key_index(s, k);
    if j < i {
        assert(s[j].0 != s[i].0);
    } else if j > i {
        assert(s[i].0 != s[j].0);
    }
}

// ---------------------------------------------------------------------------
// Execution.

struct BranchEntry {
    key: Vec<u8>,
    score_nanos: i64,
}

spec fn entries_model(es: Seq<BranchEntry>) -> Seq<(Seq<u8>, i64)> {
    Seq::new(es.len(), |i: int| (es[i].key@, es[i].score_nanos))
}

fn lexical_entries(o: &LexicalOutcome) -> (r: Vec<BranchEntry>)
    ensures
        entries_model(r@) == lexical_branch(*o),
{
    let mut out: Vec<BranchEntry> = Vec::new();
    match o {
        LexicalOutcome::Matches { matches, .. } => {
            let mut i: usize = 0;
            while i < matches.len()
                invariant
                    i <= matches@.len(),
                    out@.len() == i,
                    forall|k: int| 0 <= k < i ==> (#[trigger] out@[k]).key@ == matches@[k].key@ && out@[k].score_nanos
                        == matches@[k].score_nanos,
                decreases matches@.len() - i,
            {
                let m = &matches[i];
                let key = copy_range(m.key.as_slice(), 0, m.key.len());
                proof {
                    assert(key@ =~= m.key@);
                }
                out.push(BranchEntry { key, score_nanos: m.score_nanos });
                i = i + 1;
            }
            proof {
                assert(entries_model(out@) =~= lexical_branch(*o));
            }
        },
        LexicalOutcome::Abstained(_) => {
            proof {
                assert(entries_model(out@) =~= lexical_branch(*o));
            }
        },
    }
    out
}

fn vector_entries(o: &ExactRetrievalOutcome) -> (r: Vec<BranchEntry>)
    ensures
        entries_model(r@) == vector_branch(*o),
{
    let mut out: Vec<BranchEntry> = Vec::new();
    match o {
        ExactRetrievalOutcome::Matches { matches, .. } => {
            let mut i: usize = 0;
            while i < matches.len()
                invariant
                    i <= matches@.len(),
                    out@.len() == i,
                    forall|k: int| 0 <= k < i ==> (#[trigger] out@[k]).key@ == matches@[k].key@ && out@[k].score_nanos
                        == matches@[k].score_nanos,
                decreases matches@.len() - i,
            {
                let m = &matches[i];
                let key = copy_range(m.key.as_slice(), 0, m.key.len());
                proof {
                    assert(key@ =~= m.key@);
                }
                out.push(BranchEntry { key, score_nanos: m.score_nanos });
                i = i + 1;
            }
            proof {
                assert(entries_model(out@) =~= vector_branch(*o));
            }
        },
        ExactRetrievalOutcome::Abstained(_) => {
            proof {
                assert(entries_model(out@) =~= vector_branch(*o));
            }
        },
    }
    out
}

pub(crate) fn same_bytes(a: &[u8], b: &[u8]) -> (r: bool)
    ensures
        r == (a@ == b@),
{
    let c = compare_bytes(a, b);
    proof {
        lemma_bytes_order_antisym(a@, b@);
    }
    match c {
        Comparison::Equal => true,
        _ => false,
    }
}

/// The position of `key` among the entries.
fn position_of(es: &Vec<BranchEntry>, key: &[u8]) -> (r: Option<usize>)
    ensures
        match r {
            Some(i) => i < es@.len() && es@[i as int].key@ == key@,
            None => !has_key(entries_model(es@), key@),
        },
{
    let mut i: usize = 0;
    while i < es.len()
        invariant
            i <= es@.len(),
            forall|k: int| 0 <= k < i ==> es@[k].key@ != key@,
        decreases es@.len() - i,
    {
        if same_bytes(es[i].key.as_slice(), key) {
            return Some(i);
        }
        i = i + 1;
    }
    proof {
        let m = entries_model(es@);
        assert forall|k: int| 0 <= k < m.len() implies (#[trigger] m[k]).0 != key@ by {
            assert(m[k].0 == es@[k].key@);
        }
    }
    None
}

/// Whether no key repeats among the entries.
fn distinct_keys(es: &Vec<BranchEntry>) -> (r: bool)
    ensures
        r == keys_distinct(entries_model(es@)),
{
    let ghost m = entries_model(es@);
    let mut j: usize = 0;
    while j < es.len()
        invariant
            m == entries_model(es@),
            j <= es@.len(),
            forall|a: int, b: int| 0 <= a < b < j ==> (#[trigger] m[a]).0 != (#[trigger] m[b]).0,
        decreases es@.len() - j,
    {
        let mut i: usize = 0;
        while i < j
            invariant
                m == entries_model(es@),
                i <= j < es@.len(),
                forall|a: int| 0 <= a < i ==> (#[trigger] m[a]).0 != m[j as int].0,
            decreases j - i,
        {
            if same_bytes(es[i].key.as_slice(), es[j].key.as_slice()) {
                proof {
                    assert(m[i as int].0 == m[j as int].0);
                }
                return false;
            }
            i = i + 1;
        }
        proof {
            assert forall|a: int, b: int| 0 <= a < b < j + 1 implies (#[trigger] m[a]).0 != (#[trigger] m[b]).0 by {
                if b == j {
                    assert(m[a].0 != m[j as int].0);
                }
            }
        }
        j = j + 1;
    }
    true
}

/// `weight * 10^9 / (60 + rank)`.
fn contribution(weight: u32, rank: Option<u64>) -> (r: u64)
    requires
        weight <= MAX_WEIGHT,
        rank matches Some(x) ==> HYBRID_RRF_CONSTANT + x <= u64::MAX,
    ensures
        r == contribution_of(weight, rank),
        r <= MAX_WEIGHT * CONTRIBUTION_SCALE,
{
    match rank {
        None => 0,
        Some(x) => {
            let numerator = weight as u64 * CONTRIBUTION_SCALE;
            let denominator = HYBRID_RRF_CONSTANT + x;
            proof {
                assert(numerator / denominator <= numerator) by (nonlinear_arith)
                    requires
                        denominator >= 1,
                ;
            }
            numerator / denominator
        },
    }
}

/// The fused match of `key`, with final rank zero.
fn build_match(
    l: &Vec<BranchEntry>,
    v: &Vec<BranchEntry>,
    request: &HybridRequest,
    key: &[u8],
) -> (r: HybridMatch)
    requires
        weights_valid(*request),
        keys_distinct(entries_model(l@)),
        keys_distinct(entries_model(v@)),
        HYBRID_RRF_CONSTANT + l@.len() <= u64::MAX,
        HYBRID_RRF_CONSTANT + v@.len() <= u64::MAX,
    ensures
        match_model(r) == (key@, explanation_of(entries_model(l@), entries_model(v@), *request, key@, 0)),
{
    let ghost lm = entries_model(l@);
    let ghost vm = entries_model(v@);
    let (lexical_rank, lexical_score_nanos) = match position_of(l, key) {
        Some(i) => {
            proof {
                assert(lm[i as int].0 == key@);
                lemma_key_index(lm, i as int);
            }
            (Some(i as u64 + 1), Some(l[i].score_nanos))
        },
        None => (None, None),
    };
    let (vector_rank, vector_score_nanos) = match position_of(v, key) {
        Some(j) => {
            proof {
                assert(vm[j as int].0 == key@);
                lemma_key_index(vm, j as int);
            }
            (Some(j as u64 + 1), Some(v[j].score_nanos))
        },
        None => (None, None),
    };
    let lexical_contribution = contribution(request.lexical_weight, lexical_rank);
    let vector_contribution = contribution(request.vector_weight, vector_rank);
    let explanation = HybridExplanation {
        lexical_rank,
        lexical_score_nanos,
        vector_rank,
        vector_score_nanos,
        lexical_contribution,
        vector_contribution,
        fusion_score: lexical_contribution + vector_contribution,
        final_rank: 0,
    };
    let owned = copy_range(key, 0, key.len());
    proof {
        assert(owned@ =~= key@);
    }
    HybridMatch { key: owned, explanation }
}

/// Strictly ordered matches.
spec fn strictly_ordered(ms: Seq<(Seq<u8>, HybridExplanation)>) -> bool {
    forall|i: int, j: int| 0 <= i < j < ms.len() ==> fused_before(#[trigger] ms[i], #[trigger] ms[j])
}

/// Inserts `m` at its place in strictly ordered matches.
fn insert_ordered(sorted: &mut Vec<HybridMatch>, m: HybridMatch)
    requires
        strictly_ordered(matches_model(old(sorted)@)),
        forall|i: int| 0 <= i < old(sorted)@.len() ==> (#[trigger] old(sorted)@[i]).key@ != m.key@,
    ensures
        strictly_ordered(matches_model(final(sorted)@)),
        final(sorted)@.len() == old(sorted)@.len() + 1,
        forall|x: (Seq<u8>, HybridExplanation)| #[trigger] matches_model(final(sorted)@).contains(x) <==> (matches_model(
            old(sorted)@,
        ).contains(x) || x == match_model(m)),
{
    let ghost before = matches_model(sorted@);
    let ghost mm = match_model(m);
    let mut p: usize = 0;
    while p < sorted.len()
        invariant
            p <= sorted@.len(),
            before == matches_model(sorted@),
            mm == match_model(m),
            forall|i: int| 0 <= i < p ==> fused_before(#[trigger] before[i], mm),
            strictly_ordered(before),
            forall|i: int| 0 <= i < sorted@.len() ==> (#[trigger] sorted@[i]).key@ != m.key@,
        ensures
            p <= sorted@.len(),
            p < sorted@.len() ==> fused_before(mm, before[p as int]),
        decreases sorted@.len() - p,
    {
        let s = &sorted[p];
        let c = compare_bytes(m.key.as_slice(), s.key.as_slice());
        let key_first = match c {
            Comparison::Less => true,
            _ => false,
        };
        let goes_first = m.explanation.fusion_score > s.explanation.fusion_score || (m.explanation.fusion_score
            == s.explanation.fusion_score && key_first);
        proof {
            assert(before[p as int] == match_model(sorted@[p as int]));
            assert(key_first == (bytes_order(m.key@, s.key@) < 0));
            assert(goes_first == fused_before(mm, before[p as int]));
            assert(sorted@[p as int].key@ != m.key@);
        }
        if goes_first {
            break;
        }
        proof {
            lemma_before_total(mm, before[p as int]);
        }
        p = p + 1;
    }
    proof {
        if p < before.len() {
            assert(fused_before(mm, before[p as int]));
            assert forall|i: int| p <= i < before.len() implies fused_before(mm, #[trigger] before[i]) by {
                if i > p {
                    lemma_before_trans(mm, before[p as int], before[i]);
                }
            }
        }
    }
    sorted.insert(p, m);
    proof {
        let after = matches_model(sorted@);
        assert(after =~= before.insert(p as int, mm));
        assert forall|i: int, j: int| 0 <= i < j < after.len() implies fused_before(#[trigger] after[i], #[trigger] after[j]) by {
            if j < p {
            } else if i < p && j == p {
            } else if i < p && j > p {
                assert(after[j] == before[j - 1]);
            } else if i == p {
                assert(after[j] == before[j - 1]);
            } else {
                assert(after[i] == before[i - 1]);
                assert(after[j] == before[j - 1]);
            }
        }
        assert forall|x: (Seq<u8>, HybridExplanation)| #[trigger] after.contains(x) <==> (before.contains(x) || x == mm) by {
            if after.contains(x) {
                let i = choose|i: int| 0 <= i < after.len() && after[i] == x;
                if i < p {
                    assert(before[i] == x);
                } else if i > p {
                    assert(before[i - 1] == x);
                }
            }
            if before.contains(x) {
                let i = choose|i: int| 0 <= i < before.len() && before[i] == x;
                if i < p {
                    assert(after[i] == x);
                } else {
                    assert(after[i + 1] == x);
                }
            }
            if x == mm {
                assert(after[p as int] == x);
            }
        }
    }
}

/// Fuses complete branch outcomes with deterministic RRF: request checks
/// first, then both-branch abstention, then the fused ranking of every key
/// of either branch.
pub fn fuse_hybrid(lexical: &LexicalOutcome, vector: &ExactRetrievalOutcome, request: &HybridRequest) -> (r: Result<
    HybridOutcome,
    HybridError,
>)
    ensures
        !weights_valid(*request) ==> r == Err::<HybridOutcome, HybridError>(HybridError::InvalidWeight),
        weights_valid(*request) && request.limit == 0 ==> r == Err::<HybridOutcome, HybridError>(HybridError::ZeroLimit),
        weights_valid(*request) && request.limit != 0 ==> {
            let l = lexical_branch(*lexical);
            let v = vector_branch(*vector);
            if lexical_absence(*lexical) is Some && vector_absence(*vector) is Some {
                r == Ok::<HybridOutcome, HybridError>(
                    HybridOutcome::Abstained(
                        HybridAbstention {
                            lexical: lexical_absence(*lexical)->Some_0,
                            vector: vector_absence(*vector)->Some_0,
                        },
                    ),
                )
            } else {
                match fusion_fault(l, v) {
                    Some(e) => r == Err::<HybridOutcome, HybridError>(e),
                    None => r matches Ok(HybridOutcome::Matches { matches, lexical_absence: la, vector_absence: va })
                        && la == lexical_absence(*lexical) && va == vector_absence(*vector) && fused_ranking(
                        l,
                        v,
                        *request,
                        matches_model(matches@),
                    ),
                }
            }
        },
{
    if !(1 <= request.lexical_weight && request.lexical_weight <= MAX_WEIGHT && 1 <= request.vector_weight
        && request.vector_weight <= MAX_WEIGHT) {
        return Err(HybridError::InvalidWeight);
    }
    if request.limit == 0 {
        return Err(HybridError::ZeroLimit);
    }
    let lexical_absence: Option<HybridBranchAbsence> = match lexical {
        LexicalOutcome::Matches { .. } => None,
        LexicalOutcome::Abstained(a) => match a.reason {
            LexicalAbstentionReason::NoCandidates => Some(HybridBranchAbsence::LexicalNoCandidates),
        },
    };
    let vector_absence: Option<HybridBranchAbsence> = match vector {
        ExactRetrievalOutcome::Matches { .. } => None,
        ExactRetrievalOutcome::Abstained(a) => Some(
            match a.reason {
                ExactAbstentionReason::NoCandidates => HybridBranchAbsence::VectorNoCandidates,
                ExactAbstentionReason::BelowThreshold => HybridBranchAbsence::VectorBelowThreshold,
                ExactAbstentionReason::Ambiguous => HybridBranchAbsence::VectorAmbiguous,
            },
        ),
    };
    match (lexical_absence, vector_absence) {
        (Some(la), Some(va)) => {
            return Ok(HybridOutcome::Abstained(HybridAbstention { lexical: la, vector: va }));
        },
        _ => {},
    }
    let l = lexical_entries(lexical);
    let v = vector_entries(vector);
    if !distinct_keys(&l) || !distinct_keys(&v) {
        return Err(HybridError::DuplicateBranchKey);
    }
    if l.len() as u64 > u64::MAX - HYBRID_RRF_CONSTANT || v.len() as u64 > u64::MAX - HYBRID_RRF_CONSTANT {
        return Err(HybridError::ArithmeticOverflow);
    }
    let ghost lm = entries_model(l@);
    let ghost vm = entries_model(v@);
    let mut sorted: Vec<HybridMatch> = Vec::new();
    let mut i: usize = 0;
    while i < l.len()
        invariant
            lm == entries_model(l@),
            vm == entries_model(v@),
            weights_valid(*request),
            keys_distinct(lm),
            keys_distinct(vm),
            HYBRID_RRF_CONSTANT + l@.len() <= u64::MAX,
            HYBRID_RRF_CONSTANT + v@.len() <= u64::MAX,
            i <= l@.len(),
            strictly_ordered(matches_model(sorted@)),
            forall|x: (Seq<u8>, HybridExplanation)| #[trigger] matches_model(sorted@).contains(x) <==> (exists|a: int|
                0 <= a < i && x == (#[trigger] lm[a].0, explanation_of(lm, vm, *request, lm[a].0, 0))),
        decreases l@.len() - i,
    {
        let m = build_match(&l, &v, request, l[i].key.as_slice());
        proof {
            assert(lm[i as int].0 == l@[i as int].key@);
            assert forall|q: int| 0 <= q < sorted@.len() implies (#[trigger] sorted@[q]).key@ != m.key@ by {
                let x = matches_model(sorted@)[q];
                assert(matches_model(sorted@).contains(x));
                let a = choose|a: int| 0 <= a < i && x == (#[trigger] lm[a].0, explanation_of(lm, vm, *request, lm[a].0, 0));
                assert(lm[a].0 != lm[i as int].0);
            }
        }
        let ghost prior = matches_model(sorted@);
        insert_ordered(&mut sorted, m);
        proof {
            assert forall|x: (Seq<u8>, HybridExplanation)| #[trigger] matches_model(sorted@).contains(x) <==> (exists|a: int|
                0 <= a < i + 1 && x == (#[trigger] lm[a].0, explanation_of(lm, vm, *request, lm[a].0, 0))) by {
                if x == match_model(m) {
                    assert(x == (lm[i as int].0, explanation_of(lm, vm, *request, lm[i as int].0, 0)));
                }
                if exists|a: int| 0 <= a < i + 1 && x == (#[trigger] lm[a].0, explanation_of(lm, vm, *request, lm[a].0, 0)) {
                    let a = choose|a: int| 0 <= a < i + 1 && x == (#[trigger] lm[a].0, explanation_of(lm, vm, *request, lm[a].0, 0));
                    if a < i {
                        assert(prior.contains(x));
                    }
                }
            }
        }
        i = i + 1;
    }
    let mut j: usize = 0;
    while j < v.len()
        invariant
            lm == entries_model(l@),
            vm == entries_model(v@),
            weights_valid(*request),
            keys_distinct(lm),
            keys_distinct(vm),
            HYBRID_RRF_CONSTANT + l@.len() <= u64::MAX,
            HYBRID_RRF_CONSTANT + v@.len() <= u64::MAX,
            j <= v@.len(),
            strictly_ordered(matches_model(sorted@)),
            forall|x: (Seq<u8>, HybridExplanation)| #[trigger] matches_model(sorted@).contains(x) <==> ((exists|a: int|
                0 <= a < l@.len() && x == (#[trigger] lm[a].0, explanation_of(lm, vm, *request, lm[a].0, 0))) || (exists|
                b: int|
                0 <= b < j && !has_key(lm, vm[b].0) && x == (#[trigger] vm[b].0, explanation_of(lm, vm, *request, vm[b].0, 0)))),
        decreases v@.len() - j,
    {
        let seen = position_of(&l, v[j].key.as_slice());
        let ghost prior = matches_model(sorted@);
        let ghost kj = vm[j as int].0;
        proof {
            assert(kj == v@[j as int].key@);
        }
        match seen {
            Some(i0) => {
                proof {
                    assert(lm[i0 as int].0 == kj);
                    assert(has_key(lm, kj));
                    assert forall|x: (Seq<u8>, HybridExplanation)| #[trigger] matches_model(sorted@).contains(x) <==> ((exists|a: int|
                        0 <= a < l@.len() && x == (#[trigger] lm[a].0, explanation_of(lm, vm, *request, lm[a].0, 0))) || (exists|
                        b: int|
                        0 <= b < j + 1 && !has_key(lm, vm[b].0) && x == (#[trigger] vm[b].0, explanation_of(lm, vm, *request, vm[b].0, 0)))) by {
                        if exists|b: int| 0 <= b < j + 1 && !has_key(lm, vm[b].0) && x == (#[trigger] vm[b].0, explanation_of(lm, vm, *request, vm[b].0, 0)) {
                            let b = choose|b: int| 0 <= b < j + 1 && !has_key(lm, vm[b].0) && x == (#[trigger] vm[b].0, explanation_of(lm, vm, *request, vm[b].0, 0));
                            assert(b != j);
                        }
                    }
                }
            },
            None => {
                let m = build_match(&l, &v, request, v[j].key.as_slice());
                proof {
                    assert forall|q: int| 0 <= q < sorted@.len() implies (#[trigger] sorted@[q]).key@ != m.key@ by {
                        let x = matches_model(sorted@)[q];
                        assert(matches_model(sorted@).contains(x));
                        if exists|a: int| 0 <= a < l@.len() && x == (#[trigger] lm[a].0, explanation_of(lm, vm, *request, lm[a].0, 0)) {
                            let a = choose|a: int| 0 <= a < l@.len() && x == (#[trigger] lm[a].0, explanation_of(lm, vm, *request, lm[a].0, 0));
                            assert(lm[a].0 != kj);
                        } else {
                            let b = choose|b: int| 0 <= b < j && !has_key(lm, vm[b].0) && x == (#[trigger] vm[b].0, explanation_of(lm, vm, *request, vm[b].0, 0));
                            assert(vm[b].0 != vm[j as int].0);
                        }
                    }
                }
                insert_ordered(&mut sorted, m);
                proof {
                    assert forall|x: (Seq<u8>, HybridExplanation)| #[trigger] matches_model(sorted@).contains(x) <==> ((exists|a: int|
                        0 <= a < l@.len() && x == (#[trigger] lm[a].0, explanation_of(lm, vm, *request, lm[a].0, 0))) || (exists|
                        b: int|
                        0 <= b < j + 1 && !has_key(lm, vm[b].0) && x == (#[trigger] vm[b].0, explanation_of(lm, vm, *request, vm[b].0, 0)))) by {
                        if x == match_model(m) {
                            assert(x == (vm[j as int].0, explanation_of(lm, vm, *request, vm[j as int].0, 0)));
                        }
                        if exists|b: int| 0 <= b < j + 1 && !has_key(lm, vm[b].0) && x == (#[trigger] vm[b].0, explanation_of(lm, vm, *request, vm[b].0, 0)) {
                            let b = choose|b: int| 0 <= b < j + 1 && !has_key(lm, vm[b].0) && x == (#[trigger] vm[b].0, explanation_of(lm, vm, *request, vm[b].0, 0));
                            if b < j {
                                assert(prior.contains(x));
                            }
                        }
                    }
                }
            },
        }
        j = j + 1;
    }
    let count = if sorted.len() < request.limit {
        sorted.len()
    } else {
        request.limit
    };
    let mut out: Vec<HybridMatch> = Vec::new();
    let mut k: usize = 0;
    while k < count
        invariant
            count <= sorted@.len(),
            k <= count,
            out@.len() == k,
            forall|q: int| 0 <= q < k ==> (#[trigger] out@[q]).key@ == sorted@[q].key@ && out@[q].explanation == (
            HybridExplanation { final_rank: (q + 1) as u64, ..sorted@[q].explanation }),
        decreases count - k,
    {
        let s = &sorted[k];
        let key = copy_range(s.key.as_slice(), 0, s.key.len());
        let mut explanation = s.explanation;
        explanation.final_rank = k as u64 + 1;
        proof {
            assert(key@ =~= s.key@);
        }
        out.push(HybridMatch { key, explanation });
        k = k + 1;
    }
    proof {
        lemma_fused_result(lm, vm, *request, matches_model(sorted@), matches_model(out@));
        assert(lm == lexical_branch(*lexical));
        assert(vm == vector_branch(*vector));
    }
    Ok(HybridOutcome::Matches { matches: out, lexical_absence, vector_absence })
}

proof fn lemma_fused_result(
    lm: Seq<(Seq<u8>, i64)>,
    vm: Seq<(Seq<u8>, i64)>,
    req: HybridRequest,
    all: Seq<(Seq<u8>, HybridExplanation)>,
    out: Seq<(Seq<u8>, HybridExplanation)>,
)
    requires
        keys_distinct(lm),
        keys_distinct(vm),
        req.limit > 0,
        strictly_ordered(all),
        forall|x: (Seq<u8>, HybridExplanation)| #[trigger] all.contains(x) <==> ((exists|a: int|
            0 <= a < lm.len() && x == (#[trigger] lm[a].0, explanation_of(lm, vm, req, lm[a].0, 0))) || (exists|b: int|
            0 <= b < vm.len() && !has_key(lm, vm[b].0) && x == (#[trigger] vm[b].0, explanation_of(lm, vm, req, vm[b].0, 0)))),
        out.len() == if all.len() < req.limit { all.len() as int } else { req.limit as int },
        forall|q: int| 0 <= q < out.len() ==> (#[trigger] out[q]).0 == all[q].0 && out[q].1 == (HybridExplanation {
            final_rank: (q + 1) as u64,
            ..all[q].1
        }),
    ensures
        fused_ranking(lm, vm, req, out),
{
    assert forall|q: int| 0 <= q < all.len() implies (has_key(lm, (#[trigger] all[q]).0) || has_key(vm, all[q].0))
        && all[q].1 == explanation_of(lm, vm, req, all[q].0, 0) by {
        assert(all.contains(all[q]));
        if exists|a: int| 0 <= a < lm.len() && all[q] == (#[trigger] lm[a].0, explanation_of(lm, vm, req, lm[a].0, 0)) {
            let a = choose|a: int| 0 <= a < lm.len() && all[q] == (#[trigger] lm[a].0, explanation_of(lm, vm, req, lm[a].0, 0));
            assert(lm[a].0 == all[q].0);
        } else {
            let b = choose|b: int| 0 <= b < vm.len() && !has_key(lm, vm[b].0) && all[q] == (#[trigger] vm[b].0, explanation_of(lm, vm, req, vm[b].0, 0));
            assert(vm[b].0 == all[q].0);
        }
    }
    assert forall|i: int, j: int| 0 <= i < j < out.len() implies fused_before(#[trigger] out[i], #[trigger] out[j]) by {
        assert(fused_before(all[i], all[j]));
    }
    assert forall|k: Seq<u8>|
        (has_key(lm, k) || has_key(vm, k)) && !(exists|i: int| 0 <= i < out.len() && (#[trigger] out[i]).0 == k) implies {
            &&& out.len() == req.limit
            &&& fused_before(out[out.len() - 1], (k, explanation_of(lm, vm, req, k, 0)))
        } by {
        let x = (k, explanation_of(lm, vm, req, k, 0));
        if has_key(lm, k) {
            let a = key_index(lm, k);
            assert(lm[a].0 == k);
            assert(all.contains(x));
        } else {
            let b = key_index(vm, k);
            assert(vm[b].0 == k);
            assert(all.contains(x));
        }
        let q = choose|q: int| 0 <= q < all.len() && all[q] == x;
        if q < out.len() {
            assert(out[q].0 == k);
        }
        assert(q >= out.len());
        assert(out.len() == req.limit);
        let last = out.len() - 1;
        if last < q {
            assert(fused_before(all[last], all[q]));
        }
    }
}

/// Fusion is deterministic: two rankings of the same branches under the
/// same request that both meet `fused_ranking` are equal.
pub proof fn lemma_fused_ranking_unique(
    l: Seq<(Seq<u8>, i64)>,
    v: Seq<(Seq<u8>, i64)>,
    req: HybridRequest,
    a: Seq<(Seq<u8>, HybridExplanation)>,
    b: Seq<(Seq<u8>, HybridExplanation)>,
)
    requires
        fused_ranking(l, v, req, a),
        fused_ranking(l, v, req, b),
    ensures
        a == b,
{
    assert forall|i: int| 0 <= i < a.len() && 0 <= i < b.len() implies (#[trigger] a[i]).0 == b[i].0 by {
        lemma_same_key_at(l, v, req, a, b, i);
    }
    if a.len() < b.len() {
        lemma_longer_ranking(l, v, req, a, b);
    } else if b.len() < a.len() {
        assert forall|i: int| 0 <= i < b.len() && 0 <= i < a.len() implies (#[trigger] b[i]).0 == a[i].0 by {
            assert(a[i].0 == b[i].0);
        }
        lemma_longer_ranking(l, v, req, b, a);
    }
    assert(a.len() == b.len());
    assert forall|i: int| 0 <= i < a.len() implies a[i] == b[i] by {
        assert(a[i].0 == b[i].0);
    }
    assert(a =~= b);
}

/// A ranking that agrees on keys with another one is not shorter: it would
/// have to hold the other one's next key.
proof fn lemma_longer_ranking(
    l: Seq<(Seq<u8>, i64)>,
    v: Seq<(Seq<u8>, i64)>,
    req: HybridRequest,
    a: Seq<(Seq<u8>, HybridExplanation)>,
    b: Seq<(Seq<u8>, HybridExplanation)>,
)
    requires
        fused_ranking(l, v, req, a),
        fused_ranking(l, v, req, b),
        forall|i: int| 0 <= i < a.len() && 0 <= i < b.len() ==> (#[trigger] a[i]).0 == b[i].0,
    ensures
        a.len() >= b.len(),
{
    if a.len() < b.len() {
        let n = a.len() as int;
        let z = b[n].0;
        assert(has_key(l, b[n].0) || has_key(v, b[n].0));
        if exists|j: int| 0 <= j < a.len() && (#[trigger] a[j]).0 == z {
            let j = choose|j: int| 0 <= j < a.len() && (#[trigger] a[j]).0 == z;
            assert(b[j].0 == z);
            assert(fused_before(b[j], b[n]));
            lemma_bytes_order_antisym(b[j].0, b[n].0);
        }
        assert(a.len() == req.limit);
    }
}

/// Two rankings of the same branches hold the same key at each shared
/// position.
proof fn lemma_same_key_at(
    l: Seq<(Seq<u8>, i64)>,
    v: Seq<(Seq<u8>, i64)>,
    req: HybridRequest,
    a: Seq<(Seq<u8>, HybridExplanation)>,
    b: Seq<(Seq<u8>, HybridExplanation)>,
    i: int,
)
    requires
        fused_ranking(l, v, req, a),
        fused_ranking(l, v, req, b),
        0 <= i < a.len(),
        0 <= i < b.len(),
    ensures
        a[i].0 == b[i].0,
    decreases i,
{
    if i > 0 {
        lemma_same_key_at(l, v, req, a, b, i - 1);
    }
    assert forall|j: int| 0 <= j < i implies (#[trigger] a[j]).0 == b[j].0 by {
        lemma_same_key_at(l, v, req, a, b, j);
    }
    let x = a[i].0;
    let y = b[i].0;
    if x != y {
        let ex = (x, explanation_of(l, v, req, x, 0));
        let ey = (y, explanation_of(l, v, req, y, 0));
        lemma_before_total(ex, ey);
        if fused_before(ex, ey) {
            lemma_misplaced(l, v, req, a, b, i);
        } else {
            assert forall|j: int| 0 <= j < i implies (#[trigger] b[j]).0 == a[j].0 by {
                assert(a[j].0 == b[j].0);
            }
            lemma_misplaced(l, v, req, b, a, i);
        }
    }
}

/// Where two rankings first differ, the first one's key does not rank
/// before the second one's: otherwise the second could place it nowhere.
proof fn lemma_misplaced(
    l: Seq<(Seq<u8>, i64)>,
    v: Seq<(Seq<u8>, i64)>,
    req: HybridRequest,
    a: Seq<(Seq<u8>, HybridExplanation)>,
    b: Seq<(Seq<u8>, HybridExplanation)>,
    i: int,
)
    requires
        fused_ranking(l, v, req, a),
        fused_ranking(l, v, req, b),
        0 <= i < a.len(),
        0 <= i < b.len(),
        forall|j: int| 0 <= j < i ==> (#[trigger] a[j]).0 == b[j].0,
        a[i].0 != b[i].0,
    ensures
        !fused_before((a[i].0, explanation_of(l, v, req, a[i].0, 0)), (b[i].0, explanation_of(l, v, req, b[i].0, 0))),
{
    if fused_before((a[i].0, explanation_of(l, v, req, a[i].0, 0)), (b[i].0, explanation_of(l, v, req, b[i].0, 0))) {
        let x = a[i].0;
        let ex = (x, explanation_of(l, v, req, x, 0));
        let ey = (b[i].0, explanation_of(l, v, req, b[i].0, 0));
        assert(has_key(l, a[i].0) || has_key(v, a[i].0));
        if exists|j: int| 0 <= j < b.len() && (#[trigger] b[j]).0 == x {
            let j = choose|j: int| 0 <= j < b.len() && (#[trigger] b[j]).0 == x;
            if j < i {
                assert(a[j].0 == x);
                assert(fused_before(a[j], a[i]));
                lemma_bytes_order_antisym(a[j].0, a[i].0);
            } else {
                assert(j > i);
                assert(fused_before(b[i], b[j]));
                assert(b[i].1.fusion_score == ey.1.fusion_score);
                assert(b[j].1.fusion_score == ex.1.fusion_score);
                lemma_before_total(ex, ey);
            }
        } else {
            let last = b.len() - 1;
            assert(fused_before(b[last], ex));
            if last > i {
                assert(fused_before(b[i], b[last]));
                assert(fused_before(ey, (b[last].0, explanation_of(l, v, req, b[last].0, 0))));
                lemma_before_trans(ey, (b[last].0, explanation_of(l, v, req, b[last].0, 0)), ex);
            }
            assert(fused_before(ey, ex));
            lemma_before_total(ex, ey);
        }
    }
}

} // verus!
