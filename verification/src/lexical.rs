//! Lexical retrieval under semantics v1: index definitions, requests and
//! outcomes, and the pinned Unicode tokenizer.
use unicode_casefold::UnicodeCaseFold;
use unicode_normalization::UnicodeNormalization;
use vstd::prelude::*;
use vstd::utf8::encode_utf8;

use crate::shared::VectorSpaceName;
use crate::value::{compare_paths, lemma_path_order_antisym, lemma_path_order_trans, path_order, Comparison, FieldPath};

verus! {

/// Maximum UTF-8 token length retained by tokenizer v1.
pub const MAX_LEXICAL_TOKEN_BYTES: usize = 256;

/// Maximum positive field weight.
pub const MAX_LEXICAL_FIELD_WEIGHT_MICROS: u32 = 1_000_000_000;

/// Maximum fields in one lexical definition.
pub const MAX_LEXICAL_FIELDS: usize = 64;

/// Maximum exact segments in one configured path.
pub const MAX_LEXICAL_PATH_SEGMENTS: usize = 32;

/// Maximum UTF-8 bytes in one path segment.
pub const MAX_LEXICAL_PATH_SEGMENT_BYTES: usize = 1_024;

/// One configured document field.
#[derive(Clone, Debug, PartialEq, Eq)]
pub struct LexicalField {
    /// Exact canonical document field path.
    pub path: FieldPath,
    /// Positive weight in millionths.
    pub weight_micros: u32,
}

/// Immutable named lexical-index definition.
#[derive(Clone, Debug, PartialEq, Eq)]
pub struct LexicalIndexDefinition {
    /// Canonical index identifier.
    pub name: VectorSpaceName,
    /// Unique fields sorted by exact path.
    pub fields: Vec<LexicalField>,
}

/// Complete lexical retrieval request.
#[derive(Clone, Debug, PartialEq, Eq)]
pub struct LexicalRequest {
    /// Named durable definition.
    pub index: VectorSpaceName,
    /// UTF-8 query analyzed by tokenizer v1.
    pub query: String,
    /// Maximum returned documents.
    pub limit: usize,
}

/// Complete bounded execution policy.
#[derive(Clone, Copy, Debug, PartialEq, Eq)]
pub struct LexicalLimits {
    /// Maximum documents inspected.
    pub max_documents: u64,
    /// Maximum normalized tokens across corpus and query.
    pub max_tokens: u64,
    /// Maximum documents retained after matching.
    pub max_candidates: u64,
    /// Maximum returned documents.
    pub max_returned: usize,
    /// Cooperative timeout in nanoseconds.
    pub timeout_nanos: u128,
}

impl Default for LexicalLimits {
    fn default() -> (r: Self)
        ensures
            r.max_documents == 1_000_000,
            r.max_tokens == 10_000_000,
            r.max_candidates == 100_000,
            r.max_returned == 1_000,
            r.timeout_nanos == 30_000_000_000,
    {
        LexicalLimits {
            max_documents: 1_000_000,
            max_tokens: 10_000_000,
            max_candidates: 100_000,
            max_returned: 1_000,
            timeout_nanos: 30_000_000_000,
        }
    }
}

/// One field contribution for one query term.
#[derive(Clone, Debug, PartialEq, Eq)]
pub struct LexicalFieldContribution {
    /// Canonical field path.
    pub path: FieldPath,
    /// Raw term frequency.
    pub term_frequency: u64,
    /// Field token length.
    pub field_length: u64,
}

/// One canonical query-term explanation.
#[derive(Clone, Debug, PartialEq, Eq)]
pub struct LexicalTermContribution {
    /// Canonical token.
    pub token: String,
    /// Corpus document frequency.
    pub document_frequency: u64,
    /// Quantized contribution to the final score.
    pub score_nanos: i64,
    /// Configured fields in canonical order.
    pub fields: Vec<LexicalFieldContribution>,
}

/// One canonical lexical match.
#[derive(Clone, Debug, PartialEq, Eq)]
pub struct LexicalMatch {
    /// Binary object key.
    pub key: Vec<u8>,
    /// Canonical BM25F score in nanos.
    pub score_nanos: i64,
    /// Per-term deterministic explanation.
    pub terms: Vec<LexicalTermContribution>,
}

/// Stable normal abstention reason.
#[derive(Clone, Copy, Debug, PartialEq, Eq, Structural)]
pub enum LexicalAbstentionReason {
    /// No document contains any normalized query token.
    NoCandidates,
}

/// Stable normal abstention evidence.
#[derive(Clone, Debug, PartialEq, Eq)]
pub struct LexicalAbstention {
    /// Stable reason.
    pub reason: LexicalAbstentionReason,
    /// Documents inspected.
    pub scanned_documents: u64,
    /// Canonical unique query tokens.
    pub query_tokens: Vec<String>,
}

/// Complete lexical outcome.
#[derive(Clone, Debug, PartialEq, Eq)]
pub enum LexicalOutcome {
    /// Accepted ranked documents.
    Matches {
        /// Final matches.
        matches: Vec<LexicalMatch>,
        /// Documents inspected.
        scanned_documents: u64,
        /// Documents containing a query token.
        matched_documents: u64,
        /// Canonical unique query tokens.
        query_tokens: Vec<String>,
    },
    /// Typed normal abstention.
    Abstained(LexicalAbstention),
}

/// Complete lexical execution failure.
#[derive(Clone, Copy, Debug, PartialEq, Eq, Structural)]
pub enum LexicalError {
    /// At least one field is required.
    EmptyFields,
    /// The definition exceeds the field-count bound.
    TooManyFields,
    /// Root/empty field paths are not accepted.
    EmptyFieldPath,
    /// Path segments must be nonempty and bounded.
    InvalidFieldSegment,
    /// Field paths must be unique.
    DuplicateFieldPath,
    /// Field weights must be positive and bounded.
    InvalidFieldWeight,
    /// Request and definition names differ.
    IndexMismatch,
    /// The normalized query has no tokens.
    EmptyQuery,
    /// At least one result must be requested.
    ZeroLimit,
    /// Requested result count exceeds policy.
    ResultLimitExceeded {
        /// Requested count.
        requested: usize,
        /// Maximum count.
        maximum: usize,
    },
    /// Record keys must be nonempty.
    EmptyDocumentKey,
    /// Record keys must be unique.
    DuplicateDocumentKey,
    /// Document budget exhausted.
    DocumentBudgetExceeded {
        /// Maximum documents.
        maximum: u64,
    },
    /// Token budget exhausted.
    TokenBudgetExceeded {
        /// Maximum tokens.
        maximum: u64,
    },
    /// Candidate budget exhausted.
    CandidateBudgetExceeded {
        /// Maximum candidates.
        maximum: u64,
    },
    /// Rebuildable lexical statistics are structurally inconsistent.
    MalformedProjection,
    /// Cooperative deadline elapsed.
    TimedOut,
    /// Canonical numeric operation failed.
    ArithmeticOverflow,
}

// ---------------------------------------------------------------------------
// Tokenizer v1.

/// The NFKC normalization of a character sequence.
pub uninterp spec fn nfkc_chars(s: Seq<char>) -> Seq<char>;

/// The full, non-Turkic Unicode case folding of a character sequence.
pub uninterp spec fn case_fold_chars(s: Seq<char>) -> Seq<char>;

/// Whether a character is alphabetic or numeric in Unicode.
pub uninterp spec fn char_alphanumeric(c: char) -> bool;

/// `unicode_normalization::UnicodeNormalization::nfkc` on the characters of
/// `s`, collected into a string. The contract names the result.
#[verifier::external_body]
fn nfkc(s: &str) -> (r: String)
    ensures
        r@ == nfkc_chars(s@),
{
    s.nfkc().collect::<String>()
}

/// `unicode_casefold::UnicodeCaseFold::case_fold` (full folding, non-Turkic
/// locale) on the characters of `s`, collected into a string. The contract
/// names the result.
#[verifier::external_body]
fn case_fold(s: &str) -> (r: String)
    ensures
        r@ == case_fold_chars(s@),
{
    s.case_fold().collect::<String>()
}

/// `char::is_alphanumeric`. The contract names the result.
#[verifier::external_body]
fn is_alphanumeric(c: char) -> (r: bool)
    ensures
        r == char_alphanumeric(c),
{
    c.is_alphanumeric()
}

/// `String::push`: appends one character.
#[verifier::external_body]
pub(crate) fn push_char(s: &mut String, c: char)
    ensures
        final(s)@ == old(s)@.push(c),
{
    s.push(c);
}

/// A run is kept as a token when it is nonempty and at most 256 UTF-8 bytes.
pub open spec fn token_retained(run: Seq<char>) -> bool {
    run.len() > 0 && encode_utf8(run).len() <= MAX_LEXICAL_TOKEN_BYTES
}

/// The tokens so far after the current run ends.
pub open spec fn end_run(done: Seq<Seq<char>>, run: Seq<char>) -> Seq<Seq<char>> {
    if token_retained(run) {
        done.push(run)
    } else {
        done
    }
}

/// The finished tokens and the current run of alphanumeric characters after
/// scanning `cs`.
pub open spec fn scan_runs(cs: Seq<char>) -> (Seq<Seq<char>>, Seq<char>)
    decreases cs.len(),
{
    if cs.len() == 0 {
        (Seq::empty(), Seq::empty())
    } else {
        let (done, run) = scan_runs(cs.drop_last());
        if char_alphanumeric(cs.last()) {
            (done, run.push(cs.last()))
        } else {
            (end_run(done, run), Seq::empty())
        }
    }
}

/// The maximal runs of alphanumeric characters of `cs` that are kept as
/// tokens, in order.
pub open spec fn alphanumeric_runs(cs: Seq<char>) -> Seq<Seq<char>> {
    end_run(scan_runs(cs).0, scan_runs(cs).1)
}

/// Tokenizer v1: NFKC, then case folding, then the kept alphanumeric runs.
pub open spec fn tokens_v1(input: Seq<char>) -> Seq<Seq<char>> {
    alphanumeric_runs(case_fold_chars(nfkc_chars(input)))
}

/// The characters of each string.
pub open spec fn strings_chars(v: Seq<String>) -> Seq<Seq<char>> {
    Seq::new(v.len(), |i: int| v[i]@)
}

fn end_token(tokens: &mut Vec<String>, token: String)
    ensures
        strings_chars(final(tokens)@) == end_run(strings_chars(old(tokens)@), token@),
{
    let ghost before = tokens@;
    let text = token.as_str();
    let keep = !text.is_empty() && text.as_bytes().len() <= MAX_LEXICAL_TOKEN_BYTES;
    proof {
        assert(text@ == token@);
        assert(keep == token_retained(token@));
    }
    if keep {
        tokens.push(token);
        proof {
            assert(strings_chars(tokens@) =~= strings_chars(before).push(token@));
        }
    }
}

/// Applies tokenizer semantics `hyphae-unicode-tokenizer-v1`: NFKC
/// normalization, Unicode case folding, then maximal runs of alphanumeric
/// characters, dropping runs longer than 256 UTF-8 bytes.
pub fn tokenize_v1(input: &str) -> (r: Vec<String>)
    ensures
        strings_chars(r@) == tokens_v1(input@),
{
    let normalized = nfkc(input);
    let folded = case_fold(normalized.as_str());
    let text = folded.as_str();
    let ghost cs = text@;
    let mut tokens: Vec<String> = Vec::new();
    let mut token = String::new();
    let length = text.unicode_len();
    let mut i: usize = 0;
    proof {
        assert(cs.subrange(0, 0) =~= Seq::<char>::empty());
        assert(strings_chars(tokens@) =~= Seq::<Seq<char>>::empty());
    }
    while i < length
        invariant
            cs == text@,
            length == cs.len(),
            i <= length,
            (strings_chars(tokens@), token@) == scan_runs(cs.subrange(0, i as int)),
        decreases length - i,
    {
        let c = text.get_char(i);
        proof {
            let next = cs.subrange(0, i + 1);
            assert(next.drop_last() =~= cs.subrange(0, i as int));
            assert(next.last() == c);
        }
        if is_alphanumeric(c) {
            push_char(&mut token, c);
        } else {
            let finished = token;
            token = String::new();
            end_token(&mut tokens, finished);
        }
        i = i + 1;
    }
    end_token(&mut tokens, token);
    proof {
        assert(cs.subrange(0, cs.len() as int) =~= cs);
    }
    tokens
}

// ---------------------------------------------------------------------------
// Index definitions.

/// The model of a field: its path and weight.
pub open spec fn field_model(f: LexicalField) -> (Seq<Seq<u8>>, u32) {
    (f.path@, f.weight_micros)
}

/// The models of fields.
pub open spec fn fields_model(fs: Seq<LexicalField>) -> Seq<(Seq<Seq<u8>>, u32)> {
    Seq::new(fs.len(), |i: int| field_model(fs[i]))
}

/// A path of at most 32 segments, each of 1 to 1024 bytes.
pub open spec fn path_segments_valid(p: Seq<Seq<u8>>) -> bool {
    &&& p.len() <= MAX_LEXICAL_PATH_SEGMENTS
    &&& forall|i: int| 0 <= i < p.len() ==> 0 < (#[trigger] p[i]).len() <= MAX_LEXICAL_PATH_SEGMENT_BYTES
}

/// A weight in `1..=1000000000`.
pub open spec fn weight_valid(w: u32) -> bool {
    1 <= w <= MAX_LEXICAL_FIELD_WEIGHT_MICROS
}

/// Two fields share a path.
pub open spec fn has_duplicate_path(fs: Seq<(Seq<Seq<u8>>, u32)>) -> bool {
    exists|i: int, j: int| 0 <= i < j < fs.len() && (#[trigger] fs[i]).0 == (#[trigger] fs[j]).0
}

/// The outcome of defining an index over fields, checked in order: count,
/// empty paths, segments, weights, duplicate paths.
pub open spec fn definition_outcome(fs: Seq<(Seq<Seq<u8>>, u32)>) -> Result<(), LexicalError> {
    if fs.len() == 0 {
        Err(LexicalError::EmptyFields)
    } else if fs.len() > MAX_LEXICAL_FIELDS {
        Err(LexicalError::TooManyFields)
    } else if exists|i: int| 0 <= i < fs.len() && (#[trigger] fs[i]).0.len() == 0 {
        Err(LexicalError::EmptyFieldPath)
    } else if exists|i: int| 0 <= i < fs.len() && !path_segments_valid((#[trigger] fs[i]).0) {
        Err(LexicalError::InvalidFieldSegment)
    } else if exists|i: int| 0 <= i < fs.len() && !weight_valid((#[trigger] fs[i]).1) {
        Err(LexicalError::InvalidFieldWeight)
    } else if has_duplicate_path(fs) {
        Err(LexicalError::DuplicateFieldPath)
    } else {
        Ok(())
    }
}

/// Paths strictly increase.
pub open spec fn paths_strictly_sorted(fs: Seq<(Seq<Seq<u8>>, u32)>) -> bool {
    forall|i: int, j: int| 0 <= i < j < fs.len() ==> path_order((#[trigger] fs[i]).0, (#[trigger] fs[j]).0) < 0
}

fn path_segments_ok(path: &FieldPath) -> (r: bool)
    ensures
        r == path_segments_valid(path@),
{
    let segments = path.segments();
    if segments.len() > MAX_LEXICAL_PATH_SEGMENTS {
        return false;
    }
    let mut i: usize = 0;
    while i < segments.len()
        invariant
            crate::value::strings_bytes(segments@) == path@,
            segments@.len() <= MAX_LEXICAL_PATH_SEGMENTS,
            i <= segments@.len(),
            forall|k: int| 0 <= k < i ==> 0 < (#[trigger] path@[k]).len() <= MAX_LEXICAL_PATH_SEGMENT_BYTES,
        decreases segments@.len() - i,
    {
        let length = segments[i].as_str().as_bytes().len();
        proof {
            assert(path@[i as int] == encode_utf8(segments@[i as int]@));
        }
        if length == 0 || length > MAX_LEXICAL_PATH_SEGMENT_BYTES {
            return false;
        }
        i = i + 1;
    }
    true
}

proof fn lemma_insert_sorted(
    out: Seq<(Seq<Seq<u8>>, u32)>,
    p: int,
    x: (Seq<Seq<u8>>, u32),
)
    requires
        paths_strictly_sorted(out),
        0 <= p <= out.len(),
        forall|q: int| 0 <= q < p ==> path_order((#[trigger] out[q]).0, x.0) < 0,
        p < out.len() ==> path_order(x.0, out[p].0) < 0,
    ensures
        paths_strictly_sorted(out.insert(p, x)),
{
    let n = out.insert(p, x);
    assert forall|i: int, j: int| 0 <= i < j < n.len() implies path_order((#[trigger] n[i]).0, (#[trigger] n[j]).0) < 0 by {
        if j < p {
            assert(n[i] == out[i] && n[j] == out[j]);
        } else if j == p {
            assert(n[i] == out[i]);
        } else if i < p {
            assert(n[i] == out[i] && n[j] == out[j - 1]);
            if j - 1 > p {
                lemma_path_order_trans(x.0, out[p].0, out[j - 1].0);
            }
            lemma_path_order_trans(out[i].0, x.0, out[j - 1].0);
        } else if i == p {
            assert(n[j] == out[j - 1]);
            if j - 1 > p {
                lemma_path_order_trans(x.0, out[p].0, out[j - 1].0);
            }
        } else {
            assert(n[i] == out[i - 1] && n[j] == out[j - 1]);
        }
    }
}

/// The first position whose path is not before `field`'s.
fn insert_position(out: &Vec<LexicalField>, field: &LexicalField) -> (p: usize)
    ensures
        p <= out@.len(),
        forall|q: int| 0 <= q < p ==> path_order((#[trigger] fields_model(out@)[q]).0, field.path@) < 0,
        p < out@.len() ==> path_order(fields_model(out@)[p as int].0, field.path@) >= 0,
{
    let mut p: usize = 0;
    while p < out.len()
        invariant
            p <= out@.len(),
            forall|q: int| 0 <= q < p ==> path_order((#[trigger] fields_model(out@)[q]).0, field.path@) < 0,
        decreases out@.len() - p,
    {
        let c = compare_paths(&out[p].path, &field.path);
        proof {
            assert(fields_model(out@)[p as int] == field_model(out@[p as int]));
        }
        match c {
            Comparison::Less => {},
            _ => {
                return p;
            },
        }
        p = p + 1;
    }
    p
}

impl LexicalIndexDefinition {
    /// Constructs and canonicalizes one definition: the fields sorted by
    /// exact path.
    pub fn new(name: VectorSpaceName, fields: Vec<LexicalField>) -> (r: Result<Self, LexicalError>)
        ensures
            match r {
                Ok(d) => {
                    &&& definition_outcome(fields_model(fields@)) is Ok
                    &&& d.name@ == name@
                    &&& paths_strictly_sorted(fields_model(d.fields@))
                    &&& fields_model(d.fields@).to_multiset() == fields_model(fields@).to_multiset()
                },
                Err(e) => definition_outcome(fields_model(fields@)) == Err::<(), LexicalError>(e),
            },
    {
        let ghost orig = fields_model(fields@);
        if fields.len() == 0 {
            return Err(LexicalError::EmptyFields);
        }
        if fields.len() > MAX_LEXICAL_FIELDS {
            return Err(LexicalError::TooManyFields);
        }
        let mut i: usize = 0;
        while i < fields.len()
            invariant
                orig == fields_model(fields@),
                1 <= fields@.len() <= MAX_LEXICAL_FIELDS,
                i <= fields@.len(),
                forall|k: int| 0 <= k < i ==> (#[trigger] orig[k]).0.len() != 0,
            decreases fields@.len() - i,
        {
            let empty = fields[i].path.segments().len() == 0;
            proof {
                assert(orig[i as int] == field_model(fields@[i as int]));
            }
            if empty {
                proof {
                    assert(orig[i as int].0.len() == 0);
                }
                return Err(LexicalError::EmptyFieldPath);
            }
            i = i + 1;
        }
        let mut i: usize = 0;
        while i < fields.len()
            invariant
                orig == fields_model(fields@),
                1 <= fields@.len() <= MAX_LEXICAL_FIELDS,
                i <= fields@.len(),
                forall|k: int| 0 <= k < fields@.len() ==> (#[trigger] orig[k]).0.len() != 0,
                forall|k: int| 0 <= k < i ==> path_segments_valid((#[trigger] orig[k]).0),
            decreases fields@.len() - i,
        {
            let ok = path_segments_ok(&fields[i].path);
            proof {
                assert(orig[i as int] == field_model(fields@[i as int]));
            }
            if !ok {
                proof {
                    assert(!path_segments_valid(orig[i as int].0));
                }
                return Err(LexicalError::InvalidFieldSegment);
            }
            i = i + 1;
        }
        let mut i: usize = 0;
        while i < fields.len()
            invariant
                orig == fields_model(fields@),
                1 <= fields@.len() <= MAX_LEXICAL_FIELDS,
                i <= fields@.len(),
                forall|k: int| 0 <= k < fields@.len() ==> (#[trigger] orig[k]).0.len() != 0,
                forall|k: int| 0 <= k < fields@.len() ==> path_segments_valid((#[trigger] orig[k]).0),
                forall|k: int| 0 <= k < i ==> weight_valid((#[trigger] orig[k]).1),
            decreases fields@.len() - i,
        {
            let w = fields[i].weight_micros;
            proof {
                assert(orig[i as int] == field_model(fields@[i as int]));
            }
            if w < 1 || w > MAX_LEXICAL_FIELD_WEIGHT_MICROS {
                proof {
                    assert(!weight_valid(orig[i as int].1));
                }
                return Err(LexicalError::InvalidFieldWeight);
            }
            i = i + 1;
        }
        let mut i: usize = 0;
        while i < fields.len()
            invariant
                orig == fields_model(fields@),
                1 <= fields@.len() <= MAX_LEXICAL_FIELDS,
                i <= fields@.len(),
                forall|k: int| 0 <= k < fields@.len() ==> (#[trigger] orig[k]).0.len() != 0,
                forall|k: int| 0 <= k < fields@.len() ==> path_segments_valid((#[trigger] orig[k]).0),
                forall|k: int| 0 <= k < fields@.len() ==> weight_valid((#[trigger] orig[k]).1),
                forall|a: int, b: int| 0 <= a < b < fields@.len() && a < i ==> (#[trigger] orig[a]).0 != (#[trigger] orig[b]).0,
            decreases fields@.len() - i,
        {
            let mut j: usize = i + 1;
            while j < fields.len()
                invariant
                    orig == fields_model(fields@),
                    fields@.len() <= MAX_LEXICAL_FIELDS,
                    i < fields@.len(),
                    i + 1 <= j <= fields@.len(),
                    forall|k: int| 0 <= k < fields@.len() ==> (#[trigger] orig[k]).0.len() != 0,
                    forall|k: int| 0 <= k < fields@.len() ==> path_segments_valid((#[trigger] orig[k]).0),
                    forall|k: int| 0 <= k < fields@.len() ==> weight_valid((#[trigger] orig[k]).1),
                    forall|a: int, b: int| 0 <= a < b < fields@.len() && a < i ==> (#[trigger] orig[a]).0 != (#[trigger] orig[b]).0,
                    forall|b: int| i < b < j ==> orig[i as int].0 != (#[trigger] orig[b]).0,
                decreases fields@.len() - j,
            {
                let c = compare_paths(&fields[i].path, &fields[j].path);
                proof {
                    assert(orig[i as int] == field_model(fields@[i as int]));
                    assert(orig[j as int] == field_model(fields@[j as int]));
                    lemma_path_order_antisym(orig[i as int].0, orig[j as int].0);
                }
                match c {
                    Comparison::Equal => {
                        proof {
                            assert(orig[i as int].0 == orig[j as int].0);
                            assert(has_duplicate_path(orig));
                        }
                        return Err(LexicalError::DuplicateFieldPath);
                    },
                    _ => {},
                }
                j = j + 1;
            }
            i = i + 1;
        }
        let mut rest = fields;
        let mut out: Vec<LexicalField> = Vec::new();
        proof {
            broadcast use vstd::seq_lib::group_to_multiset_ensures;
            assert(fields_model(out@) =~= Seq::<(Seq<Seq<u8>>, u32)>::empty());
            assert(fields_model(out@).to_multiset() =~= vstd::multiset::Multiset::empty());
            assert(orig.take(orig.len() as int) =~= orig);
            assert(fields_model(out@).to_multiset().add(fields_model(rest@).to_multiset()) =~= orig.to_multiset());
        }
        while rest.len() > 0
            invariant
                !has_duplicate_path(orig),
                rest@.len() <= orig.len(),
                fields_model(rest@) == orig.take(rest@.len() as int),
                paths_strictly_sorted(fields_model(out@)),
                fields_model(out@).to_multiset().add(fields_model(rest@).to_multiset()) == orig.to_multiset(),
                forall|q: int| 0 <= q < out@.len() ==> exists|k: int| rest@.len() <= k < orig.len() && #[trigger] fields_model(out@)[q] == orig[k],
            decreases rest@.len(),
        {
            let ghost before_rest = rest@;
            let field = match rest.pop() {
                Some(f) => f,
                None => {
                    return Err(LexicalError::EmptyFields);
                },
            };
            let ghost x = field_model(field);
            let ghost k0 = rest@.len() as int;
            proof {
                assert(fields_model(before_rest) =~= fields_model(rest@).push(x));
                assert(orig.take(k0 + 1) =~= orig.take(k0).push(orig[k0]));
                assert(fields_model(rest@) =~= orig.take(k0));
                vstd::seq_lib::to_multiset_build(fields_model(rest@), x);
            }
            let p = insert_position(&out, &field);
            proof {
                assert(fields_model(before_rest)[k0] == x);
                assert(orig.take(k0 + 1)[k0] == orig[k0]);
                assert(orig[k0] == x);
                if p < out@.len() {
                    let y = fields_model(out@)[p as int];
                    assert(y == field_model(out@[p as int]));
                    lemma_path_order_antisym(y.0, x.0);
                    let k = choose|k: int| k0 + 1 <= k < orig.len() && y == orig[k];

                    if y.0 == x.0 {
                        assert(orig[k0].0 == orig[k].0);
                        assert(has_duplicate_path(orig));
                    }
                }
                lemma_insert_sorted(fields_model(out@), p as int, x);
            }
            let ghost before_out = out@;
            out.insert(p, field);
            proof {
                assert(fields_model(out@) =~= fields_model(before_out).insert(p as int, x));
                vstd::seq_lib::to_multiset_insert(fields_model(before_out), p as int, x);
                assert(fields_model(out@).to_multiset().add(fields_model(rest@).to_multiset()) =~= orig.to_multiset());
                assert forall|q: int| 0 <= q < out@.len() implies exists|k: int| rest@.len() <= k < orig.len() && #[trigger] fields_model(out@)[q] == orig[k] by {
                    if q < p {
                        assert(fields_model(out@)[q] == fields_model(before_out)[q]);
                    } else if q == p {
                        assert(fields_model(out@)[q] == orig[k0]);
                    } else {
                        assert(fields_model(out@)[q] == fields_model(before_out)[q - 1]);
                    }
                }
            }
        }
        proof {
            broadcast use vstd::seq_lib::group_to_multiset_ensures;
            assert(fields_model(rest@) =~= Seq::<(Seq<Seq<u8>>, u32)>::empty());
            assert(fields_model(rest@).to_multiset() =~= vstd::multiset::Multiset::empty());
            assert(fields_model(out@).to_multiset().add(vstd::multiset::Multiset::empty()) =~= fields_model(out@).to_multiset());
        }
        Ok(LexicalIndexDefinition { name, fields: out })
    }
}

} // verus!
