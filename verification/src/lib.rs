//! Entropy-minimizing single-byte XOR obfuscation.
//!
//! The library transforms a binary payload by XOR-ing every byte with one
//! key chosen to minimize the Shannon entropy of the result.  Entropy is
//! measured by an exact integer score: the base-2 logarithm is computed in
//! fixed point with 16 fractional bits, so scoring is deterministic and its
//! properties are proved rather than floated.

pub mod fixedlog;
pub mod xor;
pub mod entropy;
pub mod rng;
pub mod search;
