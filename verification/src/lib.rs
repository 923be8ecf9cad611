//! A FRI-based STARK proof engine over the Goldilocks field.
//!
//! The crate provides the prime field, the hash/transcript layer, Merkle
//! commitments, polynomial primitives (NTT, low-degree extension), the FRI
//! commit/fold/query protocol, example AIRs, and the prover/verifier pair
//! that assembles them into a serializable proof.

pub mod field;
pub mod hash;
pub mod merkle;
pub mod poly;
pub mod fri;
pub mod air;
pub mod stark;
pub mod examples;
pub mod recursion;
pub mod privacy;
pub mod params;

pub use field::Fp;
pub use field::MODULUS;
pub use field::bit_reverse;
pub use field::root_of_unity;
