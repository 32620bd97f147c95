//! Sparse multivariate polynomials over a prime field and the Sumcheck
//! interactive proof built on top of them.
pub mod algebra;
pub mod completeness;
pub mod field;
pub mod polynomial;
pub mod protocol;

pub use field::{is_prime, modular_pow};
pub use polynomial::{MultiVarPolynomial, PolyError};
pub use protocol::{
    compute_g_j, run_protocol, run_protocol_with_challenges, RejectReason,
    Rejection,
};
