//! Chaum–Pedersen zero-knowledge identification.
//!
//! A prover shows that it knows the secret `x` behind two public commitments
//! `y1 = alpha^x` and `y2 = beta^x` without giving `x` away: it commits to a nonce,
//! is sent a random challenge, and answers with a response that the verifier can
//! test against the commitments.
//!
//! - [`bignat`]: natural numbers of any size, with the arithmetic of `num-bigint`.
//! - [`zkp`]: the arithmetic of the proof, for prover and verifier.
//! - [`theory`]: what that arithmetic guarantees.
//! - [`protocol`]: the verifier's session protocol as a state machine.
//! - [`auth`]: the verifier that runs the protocol.
//! - [`keyed`]: sequences of key–value pairs read as maps.

pub mod auth;
pub mod bignat;
pub mod keyed;
pub mod protocol;
pub mod theory;
pub mod zkp;

pub use auth::{AuthImpl, Challenge, UserInfo};
pub use bignat::BigNat;
pub use protocol::AuthError;
pub use zkp::ZKP;
