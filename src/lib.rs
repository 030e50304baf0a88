pub mod error;
pub mod finite_field;
pub mod fri;
pub mod polynomial;
pub mod prover;

pub use error::FriError;
pub use finite_field::{extended_euclidean_algorithm, Field, FieldElement};
pub use polynomial::{fold_polynomial, Polynomial};
pub use prover::ProofStream;
pub use fri::{fri_commit, fri_query_phase, verify_fri, FriDecommitment, FriLayer};
