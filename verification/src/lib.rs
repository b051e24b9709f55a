//! The streaming core of the XXH3 family of hashes.
//!
//! Bytes are written to a [`streaming::RawHasherCore`] in pieces of any
//! size. What the hasher then hands to its finalizer is a function of the
//! concatenation of those pieces, the seed and the secret alone.
pub mod buffer;
pub mod large;
pub mod laws;
pub mod primes;
pub mod secret;
pub mod streaming;
pub mod stripes;
pub mod words;
