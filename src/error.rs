//! The errors of the library.
use vstd::prelude::*;

verus! {

/// Why an operation of the library did not produce a value.
#[derive(Debug, Clone, Copy, PartialEq, Eq, Structural)]
pub enum CryptoError {
    /// The number has no inverse for the modulus: they share a factor.
    NotInvertible,
    /// An inverse needed to build a key does not exist for the drawn primes.
    KeyGenerationFailed,
    /// The range given to prime generation is empty or holds no prime.
    InvalidRange,
    /// A plaintext is not below the modulus of the key.
    PlaintextOutOfRange,
}

} // verus!
