//! Rabin-Williams digital signatures over arbitrary-precision integers.
//!
//! A key pair is two primes `p` and `q`, three and seven modulo eight, and
//! their product `n`.  A message is hashed to a number, brought into the one
//! of four forms that is a square modulo both primes, and signed by a square
//! root of that form modulo `n`.  Verification squares the signature and
//! undoes the form.  The blind exchange lets a requester have a message
//! signed without showing it to the signer.

pub mod bignum;
pub mod bytes;
pub mod crt;
pub mod errors;
pub mod hash;
pub mod keys;
pub mod modular;
pub mod primes;
pub mod residues;
pub mod roots;
pub mod signature;
pub mod theorems;
pub mod tonelli;
pub mod utils;

pub use crate::errors::RabinWilliamsError;
pub use crate::keys::{KeyPair, PrivateKey, PublicKey};
pub use num_bigint::{BigInt, BigUint};
