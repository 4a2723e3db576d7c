//! SHA-256 and a hardware-first entropy source for freestanding code.
pub mod rng;
pub mod sha256;

pub use rng::{rand_bytes, rand_u64};
pub use sha256::sha256;
