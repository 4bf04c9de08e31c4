//! Sum-check interactive proof protocol over the BN254 scalar field.
//!
//! A prover convinces a verifier that a claimed value equals the sum of a
//! sparse multivariate polynomial over the boolean hypercube, exchanging one
//! reduced polynomial per variable instead of exponentially many evaluations.

pub mod hypercube;
pub mod poly;
pub mod sumcheck;
pub mod scalar;

pub use hypercube::HyperCube;
pub use poly::{Monomial, MultivariateEvaluation, Polynomial, TermEvaluation};
pub use scalar::Scalar;
pub use sumcheck::{PolynomialCommitment, SumCheckError, SumCheckParams, SumCheckProof};
