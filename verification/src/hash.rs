//! The hash capability of the scheme: a message digest read as one big
//! natural.

use crate::bignum::{from_bytes_be, value};
use crate::bytes::{be_value, lemma_be_value_bound};
use num_bigint::BigUint;
use vstd::arithmetic::power2::pow2;
use vstd::prelude::*;

verus! {

/// The SHA-256 digest of a message.
pub uninterp spec fn sha256(message: Seq<u8>) -> Seq<u8>;

/// The SHA-512 digest of a message.
pub uninterp spec fn sha512(message: Seq<u8>) -> Seq<u8>;

/// `Digest::digest` of `sha2::Sha256`: the digest depends on the message
/// alone and has 32 bytes.
#[verifier::external_body]
fn sha256_digest(message: &[u8]) -> (out: Vec<u8>)
    ensures
        out@ == sha256(message@),
        out@.len() == 32,
{
    <sha2::Sha256 as digest::Digest>::digest(message).to_vec()
}

/// `Digest::digest` of `sha2::Sha512`: the digest depends on the message
/// alone and has 64 bytes.
#[verifier::external_body]
fn sha512_digest(message: &[u8]) -> (out: Vec<u8>)
    ensures
        out@ == sha512(message@),
        out@.len() == 64,
{
    <sha2::Sha512 as digest::Digest>::digest(message).to_vec()
}

/// A deterministic message digest of fixed length.
pub trait HashFunction: Sized + Clone {
    /// The digest of a message.
    spec fn digest_of(message: Seq<u8>) -> Seq<u8>;

    /// The number of bytes of a digest.
    spec fn digest_len() -> nat;

    /// A fresh hasher.
    fn new() -> Self;

    /// Computes the digest of a message.
    fn digest(&self, message: &[u8]) -> (out: Vec<u8>)
        ensures
            out@ == Self::digest_of(message@),
            out@.len() == Self::digest_len(),
    ;
}

/// SHA-256.
#[derive(Clone, Copy, Debug)]
pub struct Sha256;

/// SHA-512.
#[derive(Clone, Copy, Debug)]
pub struct Sha512;

impl HashFunction for Sha256 {
    open spec fn digest_of(message: Seq<u8>) -> Seq<u8> {
        sha256(message)
    }

    open spec fn digest_len() -> nat {
        32
    }

    fn new() -> Self {
        Sha256
    }

    fn digest(&self, message: &[u8]) -> (out: Vec<u8>) {
        sha256_digest(message)
    }
}

impl HashFunction for Sha512 {
    open spec fn digest_of(message: Seq<u8>) -> Seq<u8> {
        sha512(message)
    }

    open spec fn digest_len() -> nat {
        64
    }

    fn new() -> Self {
        Sha512
    }

    fn digest(&self, message: &[u8]) -> (out: Vec<u8>) {
        sha512_digest(message)
    }
}

/// The number that a message hashes to under `D`: its digest read most
/// significant byte first.
pub open spec fn hash_value<D: HashFunction>(message: Seq<u8>) -> nat {
    be_value(D::digest_of(message))
}

/// A hash function together with the reading of its digests as numbers.
#[derive(Clone, Debug)]
pub struct HashWrapper<D: HashFunction>(D);

impl<D: HashFunction> HashWrapper<D> {
    /// A wrapper around a fresh hasher.
    pub fn new() -> Self {
        HashWrapper(D::new())
    }

    /// Hashes a message to a number, which has no more bits than the
    /// digest.
    pub fn hash(&self, message: &[u8]) -> (r: BigUint)
        ensures
            value(&r) == hash_value::<D>(message@),
            value(&r) < pow2(8 * D::digest_len()),
    {
        let digest = self.0.digest(message);
        proof {
            lemma_be_value_bound(digest@);
        }
        from_bytes_be(digest.as_slice())
    }
}

/// The wrapper that hashes with SHA-256.
pub type Sha256Hash = HashWrapper<Sha256>;

impl<D: HashFunction> Default for HashWrapper<D> {
    fn default() -> Self {
        HashWrapper::new()
    }
}

} // verus!
