//! Hyphae: a deterministic, verifiable data engine library.
pub mod shared;
pub mod value;
pub mod query;
pub mod aggregate;
pub mod engine;
pub mod canonical;
pub mod wire;
pub mod wire_values;
pub mod document;
pub mod digest;
pub mod lexical;
pub mod retrieval_proof;
pub mod lexical_proof;
pub mod hex;
pub mod stdio;
pub mod hybrid;
pub mod hybrid_proof;
pub mod retrieval_verify;
pub mod lexical_execution;
