//! A small numeric core for toy public-key cryptosystems (RSA and Paillier)
//! over machine words: modular exponentiation and inversion, prime finding by
//! sieve and by Miller-Rabin, key generation, and single-integer encryption;
//! beside it, a small key-value store of strings.
pub mod arith;
pub mod cryptosystem;
pub mod error;
pub mod kv_store;
pub mod number_theory;
pub mod paillier;
pub mod primes;
pub mod rsa;
