//! Stable product identity, compatibility constants, and canonical vector
//! domain values shared by every Hyphae surface.
use vstd::prelude::*;
use vstd::string::StringSliceAdditionalSpecFns;
use vstd::utf8::encode_utf8;

verus! {

/// Canonical product and executable name.
pub const PRODUCT_NAME: &'static str = "hyphae";

/// Version of this engine build.
pub const ENGINE_VERSION: &'static str = "0.1.0";

/// Current public HTTP API version.
pub const API_VERSION: &'static str = "v1";

/// Current on-disk format version.
pub const DISK_FORMAT_VERSION: u16 = 2;

/// Oldest on-disk format this binary can open and migrate.
pub const MIN_DISK_FORMAT_VERSION: u16 = 1;

/// Disk format introduced by durable retrieval.
pub const DURABLE_RETRIEVAL_DISK_FORMAT_VERSION: u16 = 2;

/// Maximum canonical vector-space identifier length.
pub const MAX_VECTOR_SPACE_NAME_BYTES: usize = 128;

/// Maximum canonical vector dimension.
pub const MAX_VECTOR_DIMENSIONS: usize = 4096;

/// Scale used by canonical cosine scores.
pub const SCORE_NANOS_SCALE: i64 = 1_000_000_000;

/// Failure to construct a canonical shared vector value.
#[derive(Clone, Copy, Debug, PartialEq, Eq, Structural)]
pub enum VectorValueError {
    /// The vector-space name is empty.
    EmptySpaceName,
    /// The vector-space name exceeds its byte limit.
    SpaceNameTooLong,
    /// The vector-space name does not match the canonical ASCII grammar.
    InvalidSpaceName,
    /// A vector has no elements.
    EmptyVector,
    /// A vector exceeds the maximum dimension.
    DimensionTooLarge,
    /// Signed Q15 reserves `i16::MIN` and therefore rejects it.
    InvalidQ15Element,
    /// Cosine is undefined for an all-zero vector.
    ZeroVector,
    /// A space dimension and vector dimension differ.
    DimensionMismatch,
}

/// The description of each VectorValueError.
pub open spec fn vector_error_text(e: VectorValueError) -> Seq<char> {
    match e {
        VectorValueError::EmptySpaceName => "vector-space name must be nonempty"@,
        VectorValueError::SpaceNameTooLong => "vector-space name exceeds 128 bytes"@,
        VectorValueError::InvalidSpaceName => "vector-space name does not match the canonical ASCII grammar"@,
        VectorValueError::EmptyVector => "vector must be nonempty"@,
        VectorValueError::DimensionTooLarge => "vector dimension exceeds 4096"@,
        VectorValueError::InvalidQ15Element => "Q15 vector elements cannot equal -32768"@,
        VectorValueError::ZeroVector => "vector must have nonzero magnitude"@,
        VectorValueError::DimensionMismatch => "vector dimension does not match the named space"@,
    }
}

impl VectorValueError {
    /// Stable human-readable description of the failure.
    pub fn message(&self) -> (r: &'static str)
        ensures
            r@ == vector_error_text(*self),
    {
        match self {
            VectorValueError::EmptySpaceName => "vector-space name must be nonempty",
            VectorValueError::SpaceNameTooLong => "vector-space name exceeds 128 bytes",
            VectorValueError::InvalidSpaceName => "vector-space name does not match the canonical ASCII grammar",
            VectorValueError::EmptyVector => "vector must be nonempty",
            VectorValueError::DimensionTooLarge => "vector dimension exceeds 4096",
            VectorValueError::InvalidQ15Element => "Q15 vector elements cannot equal -32768",
            VectorValueError::ZeroVector => "vector must have nonzero magnitude",
            VectorValueError::DimensionMismatch => "vector dimension does not match the named space",
        }
    }
}

/// An ASCII letter.
pub open spec fn is_ascii_letter(b: u8) -> bool {
    (0x41 <= b <= 0x5a) || (0x61 <= b <= 0x7a)
}

/// An ASCII letter or digit.
pub open spec fn is_ascii_letter_or_digit(b: u8) -> bool {
    is_ascii_letter(b) || (0x30 <= b <= 0x39)
}

/// A byte allowed after the first byte of a vector-space name.
pub open spec fn is_name_tail_byte(b: u8) -> bool {
    is_ascii_letter_or_digit(b) || b == 0x2e || b == 0x5f || b == 0x2d
}

/// The grammar `[A-Za-z][A-Za-z0-9._-]*` over bytes (length bounds apart).
pub open spec fn matches_space_name_grammar(bytes: Seq<u8>) -> bool {
    &&& bytes.len() >= 1
    &&& is_ascii_letter(bytes[0])
    &&& forall|i: int| 1 <= i < bytes.len() ==> is_name_tail_byte(#[trigger] bytes[i])
}

/// A canonical vector-space name: `[A-Za-z][A-Za-z0-9._-]{0,127}`.
pub open spec fn is_canonical_space_name(bytes: Seq<u8>) -> bool {
    bytes.len() <= MAX_VECTOR_SPACE_NAME_BYTES && matches_space_name_grammar(bytes)
}

/// The outcome `VectorSpaceName::new` gives for the UTF-8 bytes of a name.
pub open spec fn space_name_outcome(bytes: Seq<u8>) -> Result<(), VectorValueError> {
    if bytes.len() == 0 {
        Err(VectorValueError::EmptySpaceName)
    } else if bytes.len() > MAX_VECTOR_SPACE_NAME_BYTES {
        Err(VectorValueError::SpaceNameTooLong)
    } else if !matches_space_name_grammar(bytes) {
        Err(VectorValueError::InvalidSpaceName)
    } else {
        Ok(())
    }
}

/// Canonical bounded ASCII name for one vector space.
#[derive(Debug)]
pub struct VectorSpaceName {
    name: String,
}

impl View for VectorSpaceName {
    type V = Seq<u8>;

    /// The canonical UTF-8 bytes of the name.
    closed spec fn view(&self) -> Seq<u8> {
        encode_utf8(self.name@)
    }
}

impl VectorSpaceName {
    #[verifier::type_invariant]
    closed spec fn canonical(self) -> bool {
        is_canonical_space_name(encode_utf8(self.name@))
    }

    /// Validates and constructs a canonical vector-space name.
    pub fn new(value: &str) -> (result: Result<Self, VectorValueError>)
        ensures
            match result {
                Ok(name) => space_name_outcome(value.spec_bytes()) is Ok && name@ == value.spec_bytes(),
                Err(e) => space_name_outcome(value.spec_bytes()) == Err::<(), VectorValueError>(e),
            },
    {
        let bytes = value.as_bytes();
        if bytes.len() == 0 {
            return Err(VectorValueError::EmptySpaceName);
        }
        if bytes.len() > MAX_VECTOR_SPACE_NAME_BYTES {
            return Err(VectorValueError::SpaceNameTooLong);
        }
        if !is_letter_byte(bytes[0]) {
            return Err(VectorValueError::InvalidSpaceName);
        }
        let mut i: usize = 1;
        while i < bytes.len()
            invariant
                1 <= i <= bytes@.len(),
                bytes@ == value.spec_bytes(),
                1 <= bytes@.len() <= MAX_VECTOR_SPACE_NAME_BYTES,
                is_ascii_letter(bytes@[0]),
                forall|j: int| 1 <= j < i ==> is_name_tail_byte(#[trigger] bytes@[j]),
            decreases bytes@.len() - i,
        {
            if !is_tail_byte(bytes[i]) {
                proof {
                    assert(!is_name_tail_byte(bytes@[i as int]));
                }
                return Err(VectorValueError::InvalidSpaceName);
            }
            i = i + 1;
        }
        let name = value.to_owned();
        proof {
            assert(encode_utf8(name@) == value.spec_bytes());
        }
        Ok(VectorSpaceName { name })
    }

    /// Returns the canonical UTF-8/ASCII representation.
    pub fn as_str(&self) -> (r: &str)
        ensures
            r.spec_bytes() == self@,
            is_canonical_space_name(self@),
    {
        proof {
            use_type_invariant(self);
        }
        self.name.as_str()
    }

    /// Consumes the name and returns its canonical string.
    pub fn into_string(self) -> (r: String)
        ensures
            encode_utf8(r@) == self@,
    {
        self.name
    }

    /// A copy of this name.
    pub fn duplicate(&self) -> (r: VectorSpaceName)
        ensures
            r@ == self@,
    {
        proof {
            use_type_invariant(self);
        }
        let view = self.as_str();
        let name = view.to_owned();
        proof {
            assert(encode_utf8(name@) == view.spec_bytes());
        }
        VectorSpaceName { name }
    }

    /// Byte-exact equality of two names.
    pub fn same_as(&self, other: &VectorSpaceName) -> (r: bool)
        ensures
            r == (self@ == other@),
    {
        bytes_equal(self.as_str().as_bytes(), other.as_str().as_bytes())
    }
}

fn is_letter_byte(b: u8) -> (r: bool)
    ensures
        r == is_ascii_letter(b),
{
    (0x41 <= b && b <= 0x5a) || (0x61 <= b && b <= 0x7a)
}

fn is_tail_byte(b: u8) -> (r: bool)
    ensures
        r == is_name_tail_byte(b),
{
    is_letter_byte(b) || (0x30 <= b && b <= 0x39) || b == 0x2e || b == 0x5f || b == 0x2d
}

/// Byte-for-byte equality of two slices.
pub fn bytes_equal(a: &[u8], b: &[u8]) -> (r: bool)
    ensures
        r == (a@ == b@),
{
    if a.len() != b.len() {
        return false;
    }
    let mut i: usize = 0;
    while i < a.len()
        invariant
            a@.len() == b@.len(),
            i <= a@.len(),
            forall|j: int| 0 <= j < i ==> a@[j] == b@[j],
        decreases a@.len() - i,
    {
        if a[i] != b[i] {
            return false;
        }
        i = i + 1;
    }
    proof {
        assert(a@ =~= b@);
    }
    true
}

/// A canonical signed-Q15 vector: nonempty, bounded, without `i16::MIN`,
/// and not all zero.
pub open spec fn is_canonical_q15(values: Seq<i16>) -> bool {
    &&& 1 <= values.len() <= MAX_VECTOR_DIMENSIONS
    &&& forall|i: int| 0 <= i < values.len() ==> #[trigger] values[i] != i16::MIN
    &&& exists|i: int| 0 <= i < values.len() && #[trigger] values[i] != 0
}

/// The outcome `Q15Vector::new` gives for the given elements.
pub open spec fn q15_outcome(values: Seq<i16>) -> Result<(), VectorValueError> {
    if values.len() == 0 {
        Err(VectorValueError::EmptyVector)
    } else if values.len() > MAX_VECTOR_DIMENSIONS {
        Err(VectorValueError::DimensionTooLarge)
    } else if exists|i: int| 0 <= i < values.len() && #[trigger] values[i] == i16::MIN {
        Err(VectorValueError::InvalidQ15Element)
    } else if forall|i: int| 0 <= i < values.len() ==> #[trigger] values[i] == 0 {
        Err(VectorValueError::ZeroVector)
    } else {
        Ok(())
    }
}

/// Canonical nonzero signed-Q15 vector.
#[derive(Debug)]
pub struct Q15Vector {
    values: Vec<i16>,
}

impl View for Q15Vector {
    type V = Seq<i16>;

    closed spec fn view(&self) -> Seq<i16> {
        self.values@
    }
}

impl Q15Vector {
    #[verifier::type_invariant]
    closed spec fn canonical(self) -> bool {
        is_canonical_q15(self.values@)
    }

    /// Validates and constructs a canonical Q15 vector.
    pub fn new(values: Vec<i16>) -> (result: Result<Self, VectorValueError>)
        ensures
            match result {
                Ok(v) => q15_outcome(values@) is Ok && v@ == values@,
                Err(e) => q15_outcome(values@) == Err::<(), VectorValueError>(e),
            },
    {
        if values.len() == 0 {
            return Err(VectorValueError::EmptyVector);
        }
        if values.len() > MAX_VECTOR_DIMENSIONS {
            return Err(VectorValueError::DimensionTooLarge);
        }
        let mut i: usize = 0;
        while i < values.len()
            invariant
                i <= values@.len(),
                1 <= values@.len() <= MAX_VECTOR_DIMENSIONS,
                forall|j: int| 0 <= j < i ==> #[trigger] values@[j] != i16::MIN,
            decreases values@.len() - i,
        {
            if values[i] == i16::MIN {
                proof {
                    assert(values@[i as int] == i16::MIN);
                }
                return Err(VectorValueError::InvalidQ15Element);
            }
            i = i + 1;
        }
        let mut k: usize = 0;
        while k < values.len()
            invariant
                k <= values@.len(),
                1 <= values@.len() <= MAX_VECTOR_DIMENSIONS,
                forall|j: int| 0 <= j < values@.len() ==> #[trigger] values@[j] != i16::MIN,
                forall|j: int| 0 <= j < k ==> #[trigger] values@[j] == 0,
            decreases values@.len() - k,
        {
            if values[k] != 0 {
                proof {
                    assert(values@[k as int] != 0);
                }
                return Ok(Q15Vector { values });
            }
            k = k + 1;
        }
        Err(VectorValueError::ZeroVector)
    }

    /// Returns the signed Q15 elements.
    pub fn as_slice(&self) -> (r: &[i16])
        ensures
            r@ == self@,
            is_canonical_q15(self@),
    {
        proof {
            use_type_invariant(self);
        }
        self.values.as_slice()
    }

    /// Returns the canonical dimension.
    pub fn dimension(&self) -> (r: u16)
        ensures
            r as int == self@.len(),
            1 <= r <= MAX_VECTOR_DIMENSIONS,
    {
        proof {
            use_type_invariant(self);
        }
        self.values.len() as u16
    }

    /// A copy of this vector.
    pub fn duplicate(&self) -> (r: Q15Vector)
        ensures
            r@ == self@,
    {
        proof {
            use_type_invariant(self);
        }
        let values = copy_i16s(self.values.as_slice());
        Q15Vector { values }
    }

    /// Consumes the vector and returns its elements.
    pub fn into_vec(self) -> (r: Vec<i16>)
        ensures
            r@ == self@,
    {
        self.values
    }
}

impl Clone for VectorSpaceName {
    fn clone(&self) -> (r: Self)
        ensures
            r@ == self@,
    {
        self.duplicate()
    }
}

impl Clone for Q15Vector {
    fn clone(&self) -> (r: Self)
        ensures
            r@ == self@,
    {
        self.duplicate()
    }
}

/// An owned copy of a slice of signed 16-bit values.
pub fn copy_i16s(values: &[i16]) -> (r: Vec<i16>)
    ensures
        r@ == values@,
{
    let mut out: Vec<i16> = Vec::with_capacity(values.len());
    let mut i: usize = 0;
    while i < values.len()
        invariant
            i <= values@.len(),
            out@ == values@.subrange(0, i as int),
        decreases values@.len() - i,
    {
        out.push(values[i]);
        i = i + 1;
    }
    proof {
        assert(out@ =~= values@);
    }
    out
}

impl PartialEq for VectorSpaceName {
    fn eq(&self, other: &Self) -> (r: bool) {
        self.same_as(other)
    }
}

impl Eq for VectorSpaceName {
}

impl vstd::std_specs::cmp::PartialEqSpecImpl for VectorSpaceName {
    open spec fn obeys_eq_spec() -> bool {
        true
    }

    open spec fn eq_spec(&self, other: &Self) -> bool {
        self@ == other@
    }
}

impl PartialEq for Q15Vector {
    fn eq(&self, other: &Self) -> (r: bool) {
        i16s_equal(self.as_slice(), other.as_slice())
    }
}

impl Eq for Q15Vector {
}

impl vstd::std_specs::cmp::PartialEqSpecImpl for Q15Vector {
    open spec fn obeys_eq_spec() -> bool {
        true
    }

    open spec fn eq_spec(&self, other: &Self) -> bool {
        self@ == other@
    }
}

/// Element-wise equality of two slices of signed 16-bit values.
pub fn i16s_equal(a: &[i16], b: &[i16]) -> (r: bool)
    ensures
        r == (a@ == b@),
{
    if a.len() != b.len() {
        return false;
    }
    let mut i: usize = 0;
    while i < a.len()
        invariant
            a@.len() == b@.len(),
            i <= a@.len(),
            forall|j: int| 0 <= j < i ==> a@[j] == b@[j],
        decreases a@.len() - i,
    {
        if a[i] != b[i] {
            return false;
        }
        i = i + 1;
    }
    proof {
        assert(a@ =~= b@);
    }
    true
}

/// Supported canonical vector metric.
#[derive(Clone, Copy, Debug, PartialEq, Eq, Structural)]
pub enum VectorMetric {
    /// Integer cosine-nanos semantics.
    Cosine,
}

/// Immutable definition of one named vector space.
#[derive(Clone, Debug)]
pub struct VectorSpaceDefinition {
    /// Canonical vector-space identifier.
    pub name: VectorSpaceName,
    /// Fixed vector dimension.
    pub dimension: u16,
    /// Canonical metric.
    pub metric: VectorMetric,
}

impl VectorSpaceDefinition {
    /// Constructs a cosine vector space with a fixed dimension.
    pub fn cosine(name: VectorSpaceName, dimension: u16) -> (result: Result<Self, VectorValueError>)
        ensures
            dimension == 0 ==> result == Err::<Self, VectorValueError>(VectorValueError::EmptyVector),
            dimension > MAX_VECTOR_DIMENSIONS ==> result == Err::<Self, VectorValueError>(
                VectorValueError::DimensionTooLarge,
            ),
            1 <= dimension <= MAX_VECTOR_DIMENSIONS ==> (result matches Ok(d) && d.name@ == name@
                && d.dimension == dimension && d.metric == VectorMetric::Cosine),
    {
        if dimension == 0 {
            return Err(VectorValueError::EmptyVector);
        }
        if dimension as usize > MAX_VECTOR_DIMENSIONS {
            return Err(VectorValueError::DimensionTooLarge);
        }
        Ok(VectorSpaceDefinition { name, dimension, metric: VectorMetric::Cosine })
    }

    /// Checks that a vector belongs to this space.
    pub fn validate_vector(&self, vector: &Q15Vector) -> (result: Result<(), VectorValueError>)
        ensures
            result is Ok <==> vector@.len() == self.dimension,
            result is Err ==> result == Err::<(), VectorValueError>(VectorValueError::DimensionMismatch),
    {
        if vector.dimension() == self.dimension {
            Ok(())
        } else {
            Err(VectorValueError::DimensionMismatch)
        }
    }
}

/// Product version information that can be reported without opening a data directory.
#[derive(Clone, Copy, Debug)]
pub struct VersionInfo {
    /// Product name.
    pub product: &'static str,
    /// Package version of the running library.
    pub engine: &'static str,
    /// Public HTTP API version.
    pub api: &'static str,
    /// On-disk format version.
    pub disk_format: u16,
}

/// Returns the version information compiled into this build.
pub fn current_version() -> (r: VersionInfo)
    ensures
        r.product == PRODUCT_NAME,
        r.engine == ENGINE_VERSION,
        r.api == API_VERSION,
        r.disk_format == DISK_FORMAT_VERSION,
{
    VersionInfo {
        product: PRODUCT_NAME,
        engine: ENGINE_VERSION,
        api: API_VERSION,
        disk_format: DISK_FORMAT_VERSION,
    }
}

} // verus!
