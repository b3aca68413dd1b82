use hyphae::canonical::ExactRetrievalError;
use hyphae::hybrid::HybridError;
use hyphae::shared::VectorValueError;

#[test]
fn error_messages_are_stable() {
    assert_eq!(HybridError::ZeroLimit.message(), "hybrid result limit must be nonzero");
    assert_eq!(HybridError::InvalidWeight.message(), "hybrid branch weights must be in 1..=1000000");
    assert_eq!(VectorValueError::ZeroVector.message(), "vector must have nonzero magnitude");
    assert_eq!(VectorValueError::DimensionMismatch.message(), "vector dimension does not match the named space");
    assert_eq!(ExactRetrievalError::TimedOut.message(), "retrieval execution timed out");
    assert_eq!(ExactRetrievalError::ZeroLimit.message(), "retrieval limit must be nonzero");
}
