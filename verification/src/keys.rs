//! Keys of the Rabin-Williams scheme: generation, signing, verification and
//! the blind-signature exchange.

use crate::bignum::{
    difference, equal, from_bytes_be, from_u64, gcd, is_probably_prime, less, modpow, product,
    quotient, random_in_range, remainder, shift_left, sum, to_bytes_be, value,
};
use crate::bytes::{be_bytes, be_value, lemma_be_bytes_value};
use crate::crt::lemma_crt_solvable_pair;
use crate::errors::RabinWilliamsError;
use crate::hash::{hash_value, HashFunction, HashWrapper, Sha256};
use crate::modular::{coprime, lemma_gcd_one_is_coprime, lemma_inverse_mod_is};
use crate::primes::{lemma_distinct_primes_coprime, lemma_residue_form_exists};
use crate::residues::{residue_form, root_mod};
use crate::signature::{
    blinded_value, extract_spec, has_bit_length, is_blinding_factor, is_signature, pack_spec,
    signable, unblind_spec, valid_primes, verify_spec, well_formed,
};
use crate::theorems::lemma_small_representative_signable;
use crate::utils::{chinese_remainder_theorem, mod_inverse, try_make_quadratic_residue, values};
use num_bigint::BigUint;
use vstd::arithmetic::div_mod::*;
use vstd::arithmetic::power2::*;
use vstd::prelude::*;
use vstd::slice::slice_subrange;

verus! {

/// The smallest modulus size, in bits, that key generation accepts.
pub const MIN_KEY_BITS: usize = 1024;

/// How many random starting points a prime search tries before it gives up.
pub const SEARCH_ROUNDS: u32 = 1000;

/// The public half of a key: the modulus `n`.
#[derive(Clone, Debug)]
pub struct PublicKey<D: HashFunction = Sha256> {
    pub n: BigUint,
    pub hash_fn: HashWrapper<D>,
}

/// The private half of a key: the primes `p` and `q`.
#[derive(Clone, Debug)]
pub struct PrivateKey<D: HashFunction = Sha256> {
    pub p: BigUint,
    pub q: BigUint,
    pub hash_fn: HashWrapper<D>,
}

/// A private key with the public key that belongs to it.
#[derive(Clone, Debug)]
pub struct KeyPair<D: HashFunction = Sha256> {
    pub public: PublicKey<D>,
    pub private: PrivateKey<D>,
}

/// The smallest and the largest number of exactly `bits` bits: the range
/// that a prime search draws from and scans in.
pub fn search_bounds(bits: usize) -> (r: (BigUint, BigUint))
    requires
        bits >= 2,
    ensures
        value(&r.0) == pow2((bits - 1) as nat),
        value(&r.1) == pow2(bits as nat) - 1,
        value(&r.0) < value(&r.1),
{
    let one = from_u64(1);
    let min = shift_left(&one, (bits - 1) as u64);
    let top = shift_left(&one, bits as u64);
    proof {
        lemma_pow2_pos((bits - 2) as nat);
        lemma_pow2_unfold((bits - 1) as nat);
        lemma_pow2_unfold(bits as nat);
    }
    let max = difference(&top, &one);
    (min, max)
}

/// Whether `candidate` leaves `remainder_wanted` modulo `modulus`.
pub fn has_remainder(candidate: &BigUint, remainder_wanted: u32, modulus: u32) -> (r: bool)
    requires
        modulus > 0,
    ensures
        r == (value(candidate) % (modulus as nat) == remainder_wanted),
{
    let modulus_big = from_u64(modulus as u64);
    let remainder_big = from_u64(remainder_wanted as u64);
    equal(&remainder(candidate, &modulus_big), &remainder_big)
}

/// The candidate that a round of a prime search looks at after `candidate`,
/// which it reached in `step` steps: the next number, unless the round has
/// then looked at `bits` candidates or `candidate` is already the largest
/// number `max` of the size searched.
pub fn next_candidate(candidate: &BigUint, step: usize, bits: usize, max: &BigUint) -> (r: Option<
    BigUint,
>)
    ensures
        match r {
            Some(c) => step + 1 < bits && value(candidate) < value(max) && value(&c) == value(
                candidate,
            ) + 1,
            None => step + 1 >= bits || value(candidate) >= value(max),
        },
{
    if step >= bits || bits - step <= 1 || !less(candidate, max) {
        return None;
    }
    let one = from_u64(1);
    Some(sum(candidate, &one))
}

/// Searches for a probable prime of exactly `bits` bits that leaves
/// `remainder_wanted` modulo `modulus`.
///
/// Each round draws a random number within [`search_bounds`] and looks at
/// it and at the numbers that [`next_candidate`] gives after it, at most
/// `bits` in all, for one that passes [`has_remainder`] and that the
/// primality test accepts.  After `SEARCH_ROUNDS` rounds without success the
/// search fails with `InvalidPrime`.
fn generate_prime_congruent(bits: usize, remainder_wanted: u32, modulus: u32) -> (r: Result<
    BigUint,
    RabinWilliamsError,
>)
    requires
        bits >= 2,
        modulus > 0,
    ensures
        match r {
            Ok(c) => has_bit_length(value(&c), bits as nat) && value(&c) % (modulus as nat)
                == remainder_wanted,
            Err(e) => e == RabinWilliamsError::InvalidPrime,
        },
{
    let (min, max) = search_bounds(bits);
    let mut round: u32 = 0;
    while round < SEARCH_ROUNDS
        invariant
            value(&min) == pow2((bits - 1) as nat),
            value(&max) == pow2(bits as nat) - 1,
            value(&min) < value(&max),
            modulus > 0,
            bits >= 2,
        decreases SEARCH_ROUNDS - round,
    {
        let mut candidate = random_in_range(&min, &max);
        let mut step: usize = 0;
        loop
            invariant
                value(&min) == pow2((bits - 1) as nat),
                value(&max) == pow2(bits as nat) - 1,
                value(&min) <= value(&candidate) <= value(&max),
                step < bits,
                modulus > 0,
            decreases bits - step,
        {
            if has_remainder(&candidate, remainder_wanted, modulus) && is_probably_prime(
                &candidate,
            ) {
                return Ok(candidate);
            }
            match next_candidate(&candidate, step, bits, &max) {
                Some(next) => {
                    candidate = next;
                    step = step + 1;
                },
                None => {
                    break ;
                },
            }
        }
        round = round + 1;
    }
    Err(RabinWilliamsError::InvalidPrime)
}

impl<D: HashFunction> KeyPair<D> {
    /// The invariant of a key pair: the modulus is the product of the
    /// primes, `p` leaves three and `q` seven modulo eight.
    pub open spec fn well_formed(&self) -> bool {
        &&& value(&self.public.n) == value(&self.private.p) * value(&self.private.q)
        &&& value(&self.private.p) % 8 == 3
        &&& value(&self.private.q) % 8 == 7
    }

    /// Generates a key pair with a modulus of about `bits` bits that hashes
    /// with `hash_fn`.
    ///
    /// Fails with `InvalidKeySize` exactly when `bits` is below
    /// `MIN_KEY_BITS`, and with `InvalidPrime` when one of the two prime
    /// searches runs out of rounds.  Both primes have exactly `bits / 2`
    /// bits, and they differ; the modulus has twice as many bits, or one
    /// less.
    pub fn generate_with_hash(bits: usize, hash_fn: HashWrapper<D>) -> (r: Result<
        Self,
        RabinWilliamsError,
    >)
        ensures
            match r {
                Ok(pair) => {
                    &&& bits >= MIN_KEY_BITS
                    &&& pair.well_formed()
                    &&& has_bit_length(value(&pair.private.p), (bits / 2) as nat)
                    &&& has_bit_length(value(&pair.private.q), (bits / 2) as nat)
                    &&& value(&pair.private.p) != value(&pair.private.q)
                    &&& pow2((2 * (bits / 2) - 2) as nat) <= value(&pair.public.n) < pow2(
                        (2 * (bits / 2)) as nat,
                    )
                },
                Err(e) => if bits < MIN_KEY_BITS {
                    e == RabinWilliamsError::InvalidKeySize
                } else {
                    e == RabinWilliamsError::InvalidPrime
                },
            },
    {
        if bits < MIN_KEY_BITS {
            return Err(RabinWilliamsError::InvalidKeySize);
        }
        let half_bits = bits / 2;
        let p = match generate_prime_congruent(half_bits, 3, 8) {
            Ok(p) => p,
            Err(e) => {
                return Err(e);
            },
        };
        let q = match generate_prime_congruent(half_bits, 7, 8) {
            Ok(q) => q,
            Err(e) => {
                return Err(e);
            },
        };
        let n = product(&p, &q);
        proof {
            let h = (bits / 2) as nat;
            let low = pow2((h - 1) as nat);
            let (vp, vq) = (value(&p), value(&q));
            lemma_pow2_adds((h - 1) as nat, (h - 1) as nat);
            lemma_pow2_adds(h, h);
            assert(low * low <= vp * vq < pow2(h) * pow2(h)) by (nonlinear_arith)
                requires
                    low <= vp < pow2(h),
                    low <= vq < pow2(h),
            ;
        }
        Ok(
            KeyPair {
                public: PublicKey { n, hash_fn: hash_fn.clone() },
                private: PrivateKey { p, q, hash_fn },
            },
        )
    }
}

impl KeyPair<Sha256> {
    /// Generates a key pair that hashes with SHA-256: see
    /// [`KeyPair::generate_with_hash`].  Both primes have more bits than a
    /// digest.
    pub fn generate(bits: usize) -> (r: Result<Self, RabinWilliamsError>)
        ensures
            match r {
                Ok(pair) => {
                    &&& bits >= MIN_KEY_BITS
                    &&& pair.well_formed()
                    &&& has_bit_length(value(&pair.private.p), (bits / 2) as nat)
                    &&& has_bit_length(value(&pair.private.q), (bits / 2) as nat)
                    &&& value(&pair.private.p) != value(&pair.private.q)
                    &&& pow2((2 * (bits / 2) - 2) as nat) <= value(&pair.public.n) < pow2(
                        (2 * (bits / 2)) as nat,
                    )
                    &&& pow2(8 * Sha256::digest_len()) <= value(&pair.private.p)
                    &&& pow2(8 * Sha256::digest_len()) <= value(&pair.private.q)
                },
                Err(e) => if bits < MIN_KEY_BITS {
                    e == RabinWilliamsError::InvalidKeySize
                } else {
                    e == RabinWilliamsError::InvalidPrime
                },
            },
    {
        proof {
            if bits >= MIN_KEY_BITS {
                lemma_pow2_strictly_increases(256, (bits / 2 - 1) as nat);
            }
        }
        Self::generate_with_hash(bits, HashWrapper::new())
    }
}

impl<D: HashFunction> PublicKey<D> {
    /// The public key with the modulus `n`.
    pub fn from_n(n: BigUint) -> (key: Self)
        ensures
            key.n == n,
    {
        PublicKey { n, hash_fn: HashWrapper::new() }
    }

    /// The modulus.
    pub fn n(&self) -> (n: &BigUint)
        ensures
            *n == self.n,
    {
        &self.n
    }

    /// Whether `r` can blind a message under this key: it lies between one
    /// and `n - 1` and is coprime to `n`.
    pub fn accepts_blinding_factor(&self, r: &BigUint) -> (ok: bool)
        ensures
            ok == is_blinding_factor(value(r), value(&self.n)),
    {
        let one = from_u64(1);
        if less(r, &one) || !less(r, &self.n) {
            return false;
        }
        let d = gcd(r, &self.n);
        proof {
            lemma_gcd_one_is_coprime(value(&d), value(r), value(&self.n));
        }
        equal(&d, &one)
    }

    /// Draws a random blinding factor for this key.
    ///
    /// Numbers between one and `n - 1` are drawn until one is coprime to
    /// `n`.  Fails with `ComputationError` when the modulus is below two, so
    /// that there is nothing to draw from, and when `SEARCH_ROUNDS` draws in
    /// a row share a factor with `n`.
    pub fn coprime(&self) -> (r: Result<BigUint, RabinWilliamsError>)
        ensures
            match r {
                Ok(x) => is_blinding_factor(value(&x), value(&self.n)),
                Err(e) => e == RabinWilliamsError::ComputationError,
            },
    {
        let one = from_u64(1);
        if !less(&one, &self.n) {
            return Err(RabinWilliamsError::ComputationError);
        }
        let mut round: u32 = 0;
        while round < SEARCH_ROUNDS
            invariant
                value(&one) == 1,
                value(&one) < value(&self.n),
            decreases SEARCH_ROUNDS - round,
        {
            let e = random_in_range(&one, &self.n);
            if self.accepts_blinding_factor(&e) {
                return Ok(e);
            }
            round = round + 1;
        }
        Err(RabinWilliamsError::ComputationError)
    }

    /// Draws a random blinding factor `r` and returns it with its square
    /// modulo `n`.  Fails as [`PublicKey::coprime`] does.
    pub fn blinding(&self) -> (r: Result<(BigUint, BigUint), RabinWilliamsError>)
        ensures
            match r {
                Ok(pair) => is_blinding_factor(value(&pair.0), value(&self.n)) && value(&pair.1)
                    == (value(&pair.0) * value(&pair.0)) % value(&self.n),
                Err(e) => e == RabinWilliamsError::ComputationError,
            },
    {
        let r = match self.coprime() {
            Ok(r) => r,
            Err(e) => {
                return Err(e);
            },
        };
        let r_squared = remainder(&product(&r, &r), &self.n);
        Ok((r, r_squared))
    }

    /// Decodes a signature into its sign, factor and magnitude.
    ///
    /// Fails with `InvalidSignature` exactly when the byte string has fewer
    /// than two bytes or sets one of bits 2 to 7 of its first byte.
    pub fn extract_signature(&self, signature: &[u8]) -> (r: Result<
        (i32, u32, BigUint),
        RabinWilliamsError,
    >)
        ensures
            match r {
                Ok(t) => extract_spec(signature@) == Some((t.0 as int, t.1 as nat, value(&t.2))),
                Err(e) => e == RabinWilliamsError::InvalidSignature && !well_formed(signature@),
            },
    {
        if signature.len() == 0 {
            return Err(RabinWilliamsError::InvalidSignature);
        }
        let first_byte = signature[0];
        if first_byte & 0xFC != 0 {
            return Err(RabinWilliamsError::InvalidSignature);
        }
        let e: i32 = if (first_byte & 1) == 0 {
            1
        } else {
            -1
        };
        let f: u32 = if (first_byte & 2) == 0 {
            1
        } else {
            2
        };
        if signature.len() < 2 {
            return Err(RabinWilliamsError::InvalidSignature);
        }
        let x = from_bytes_be(slice_subrange(signature, 1, signature.len()));
        Ok((e, f, x))
    }

    /// Verifies a signature of a message.
    ///
    /// The answer is `true` exactly when the representative that the
    /// signature stands for under `n` is the hash of the message.  Fails
    /// with `InvalidSignature` exactly when the byte string is no signature,
    /// and with `ComputationError` for a signature under the modulus zero.
    pub fn verify(&self, message: &[u8], signature: &[u8]) -> (r: Result<bool, RabinWilliamsError>)
        ensures
            match r {
                Ok(valid) => value(&self.n) > 0 && verify_spec(
                    hash_value::<D>(message@),
                    signature@,
                    value(&self.n),
                ) == Some(valid),
                Err(e) => if well_formed(signature@) {
                    e == RabinWilliamsError::ComputationError && value(&self.n) == 0
                } else {
                    e == RabinWilliamsError::InvalidSignature
                },
            },
    {
        let m = self.hash_fn.hash(message);
        let (e, f, x) = match self.extract_signature(signature) {
            Ok(t) => t,
            Err(e) => {
                return Err(e);
            },
        };
        let zero = from_u64(0);
        let n = &self.n;
        if equal(n, &zero) {
            return Err(RabinWilliamsError::ComputationError);
        }
        let one = from_u64(1);
        let two = from_u64(2);
        let x_squared = remainder(&product(&x, &x), n);
        proof {
            lemma_mod_bound((value(&x) * value(&x)) as int, value(n) as int);
        }
        let result = if e == 1 && f == 1 {
            x_squared
        } else if e == 1 {
            let two_inv = quotient(&sum(n, &one), &two);
            remainder(&product(&x_squared, &two_inv), n)
        } else if f == 1 {
            remainder(&difference(n, &x_squared), n)
        } else {
            let two_inv = quotient(&sum(n, &one), &two);
            remainder(&product(&difference(n, &x_squared), &two_inv), n)
        };
        Ok(equal(&result, &m))
    }

    /// Blinds a message with the blinding factor `r`: the result is the
    /// hash of the message times the square of `r`, modulo `n`.  Fails with
    /// `ComputationError` exactly when the modulus is zero.
    pub fn blind_message_with(&self, message: &[u8], r: &BigUint) -> (b: Result<
        BigUint,
        RabinWilliamsError,
    >)
        ensures
            match b {
                Ok(blinded) => value(&self.n) > 0 && value(&blinded) == blinded_value(
                    hash_value::<D>(message@),
                    value(r),
                    value(&self.n),
                ),
                Err(e) => e == RabinWilliamsError::ComputationError && value(&self.n) == 0,
            },
    {
        let zero = from_u64(0);
        if equal(&self.n, &zero) {
            return Err(RabinWilliamsError::ComputationError);
        }
        let m = self.hash_fn.hash(message);
        let r_squared = remainder(&product(r, r), &self.n);
        Ok(remainder(&product(&r_squared, &m), &self.n))
    }

    /// Blinds a message with a fresh random blinding factor, and returns
    /// the blinded value and the factor.  Fails as [`PublicKey::coprime`]
    /// does.
    pub fn blind_message(&self, message: &[u8]) -> (r: Result<
        (BigUint, BigUint),
        RabinWilliamsError,
    >)
        ensures
            match r {
                Ok(pair) => is_blinding_factor(value(&pair.1), value(&self.n)) && value(&pair.0)
                    == blinded_value(hash_value::<D>(message@), value(&pair.1), value(&self.n)),
                Err(e) => e == RabinWilliamsError::ComputationError,
            },
    {
        let r = match self.coprime() {
            Ok(r) => r,
            Err(e) => {
                return Err(e);
            },
        };
        match self.blind_message_with(message, &r) {
            Ok(blinded) => Ok((blinded, r)),
            Err(e) => Err(e),
        }
    }

    /// Removes the blinding factor `r` from a blinded signature.
    ///
    /// Fails with `InvalidSignature` exactly when the byte string is no
    /// signature or `r` has no inverse modulo `n`.
    pub fn unblind_signature(&self, signature: &[u8], r: &BigUint) -> (out: Result<
        Vec<u8>,
        RabinWilliamsError,
    >)
        ensures
            match out {
                Ok(sig) => unblind_spec(signature@, value(r), value(&self.n)) == Some(sig@),
                Err(e) => e == RabinWilliamsError::InvalidSignature && unblind_spec(
                    signature@,
                    value(r),
                    value(&self.n),
                ) is None,
            },
    {
        let (e, f, x) = match self.extract_signature(signature) {
            Ok(t) => t,
            Err(e) => {
                return Err(e);
            },
        };
        let r_inv = match mod_inverse(r, &self.n) {
            Some(v) => v,
            None => {
                return Err(RabinWilliamsError::InvalidSignature);
            },
        };
        proof {
            lemma_inverse_mod_is(value(&r_inv), value(r), value(&self.n));
        }
        let unblinded_x = remainder(&product(&r_inv, &x), &self.n);
        Ok(PrivateKey::<D>::pack_signature(e, f, &unblinded_x))
    }
}

impl<D: HashFunction> PrivateKey<D> {
    /// The private key with the primes `p` and `q`, which leave three and
    /// seven modulo eight: see [`PrivateKey::checked_from_primes`] for
    /// numbers of which this is not known.
    pub fn from_primes(p: BigUint, q: BigUint) -> (key: Self)
        requires
            value(&p) % 8 == 3,
            value(&q) % 8 == 7,
        ensures
            key.p == p,
            key.q == q,
    {
        PrivateKey { p, q, hash_fn: HashWrapper::new() }
    }

    /// The private key with the primes `p` and `q`, for primes that come
    /// from outside, such as a key file.
    ///
    /// Fails with `InvalidPrime` exactly when `p` does not leave three or
    /// `q` does not leave seven modulo eight: with other primes not every
    /// message could be signed, and what was signed might not verify.
    pub fn checked_from_primes(p: BigUint, q: BigUint) -> (r: Result<Self, RabinWilliamsError>)
        ensures
            match r {
                Ok(key) => key.p == p && key.q == q && value(&p) % 8 == 3 && value(&q) % 8 == 7,
                Err(e) => e == RabinWilliamsError::InvalidPrime && !(value(&p) % 8 == 3 && value(
                    &q,
                ) % 8 == 7),
            },
    {
        if has_remainder(&p, 3, 8) && has_remainder(&q, 7, 8) {
            Ok(Self::from_primes(p, q))
        } else {
            Err(RabinWilliamsError::InvalidPrime)
        }
    }

    /// The modulus `p * q`.
    pub fn n(&self) -> (n: BigUint)
        ensures
            value(&n) == value(&self.p) * value(&self.q),
    {
        product(&self.p, &self.q)
    }

    /// Signs a message: hashes it and signs the hash as
    /// [`PrivateKey::raw_sign`] does.  Under valid primes that have more bits
    /// than the digest, every message is signed but one that hashes to zero.
    pub fn sign(&self, message: &[u8]) -> (r: Result<Vec<u8>, RabinWilliamsError>)
        ensures
            match r {
                Ok(sig) => {
                    &&& hash_value::<D>(message@) <= value(&self.p) * value(&self.q)
                    &&& is_signature(
                        sig@,
                        hash_value::<D>(message@),
                        value(&self.p),
                        value(&self.q),
                    )
                    &&& coprime(value(&self.p), value(&self.q))
                },
                Err(e) => if hash_value::<D>(message@) > value(&self.p) * value(&self.q) {
                    e == RabinWilliamsError::MessageTooLarge
                } else {
                    e == RabinWilliamsError::ComputationError && (residue_form(
                        hash_value::<D>(message@),
                        value(&self.p),
                        value(&self.q),
                    ) is None || !coprime(value(&self.p), value(&self.q)))
                },
            },
            valid_primes(value(&self.p), value(&self.q)) && signable(
                hash_value::<D>(message@),
                value(&self.p),
                value(&self.q),
            ) ==> r is Ok,
            valid_primes(value(&self.p), value(&self.q)) && hash_value::<D>(message@) != 0
                && pow2(8 * D::digest_len()) <= value(&self.p) && pow2(8 * D::digest_len())
                <= value(&self.q) ==> r is Ok,
    {
        let hash = to_bytes_be(&self.hash_fn.hash(message));
        proof {
            let h = hash_value::<D>(message@);
            lemma_be_bytes_value(h);
            if 0 < h < value(&self.p) && h < value(&self.q) {
                lemma_small_representative_signable(h, value(&self.p), value(&self.q));
            }
        }
        self.raw_sign(hash.as_slice())
    }

    /// Signs a message representative given as big-endian bytes.
    ///
    /// The representative is brought into the form that passes Euler's
    /// criterion modulo both primes; of that form the square roots modulo
    /// `p` and `q` are taken and combined into the magnitude.  Fails with
    /// `MessageTooLarge` exactly when the representative exceeds `p * q`:
    /// verification recovers a number below the modulus, so that no
    /// signature of a larger one could verify.  Fails otherwise with
    /// `ComputationError` exactly when the representative has no such form
    /// or the primes are not coprime.  Neither happens under valid primes
    /// for a representative below the modulus that neither prime divides.
    pub fn raw_sign(&self, message: &[u8]) -> (r: Result<Vec<u8>, RabinWilliamsError>)
        ensures
            match r {
                Ok(sig) => {
                    &&& be_value(message@) <= value(&self.p) * value(&self.q)
                    &&& is_signature(sig@, be_value(message@), value(&self.p), value(&self.q))
                    &&& coprime(value(&self.p), value(&self.q))
                },
                Err(e) => if be_value(message@) > value(&self.p) * value(&self.q) {
                    e == RabinWilliamsError::MessageTooLarge
                } else {
                    e == RabinWilliamsError::ComputationError && (residue_form(
                        be_value(message@),
                        value(&self.p),
                        value(&self.q),
                    ) is None || !coprime(value(&self.p), value(&self.q)))
                },
            },
            valid_primes(value(&self.p), value(&self.q)) && signable(
                be_value(message@),
                value(&self.p),
                value(&self.q),
            ) ==> r is Ok,
    {
        let m = from_bytes_be(message);
        let n = product(&self.p, &self.q);
        proof {
            let (vp, vq) = (value(&self.p), value(&self.q));
            lemma_crt_solvable_pair(vp, vq);
            if valid_primes(vp, vq) && signable(value(&m), vp, vq) {
                lemma_residue_form_exists(value(&m), vp, vq);
                lemma_distinct_primes_coprime(vp, vq);
            }
        }
        if less(&n, &m) {
            return Err(RabinWilliamsError::MessageTooLarge);
        }
        let (c, (e, f)) = match try_make_quadratic_residue(&m, &self.p, &self.q) {
            Some(t) => t,
            None => {
                return Err(RabinWilliamsError::ComputationError);
            },
        };
        let one = from_u64(1);
        let four = from_u64(4);
        let mp = remainder(&c, &self.p);
        let mq = remainder(&c, &self.q);
        let sp = modpow(&mp, &quotient(&sum(&self.p, &one), &four), &self.p);
        let sq = modpow(&mq, &quotient(&sum(&self.q, &one), &four), &self.q);
        let remainders = vec![sp, sq];
        let moduli = vec![self.p.clone(), self.q.clone()];
        proof {
            assert(values(moduli@) =~= seq![value(&self.p), value(&self.q)]);
            assert(values(remainders@) =~= seq![
                root_mod(value(&c), value(&self.p)),
                root_mod(value(&c), value(&self.q)),
            ]);
        }
        let x = match chinese_remainder_theorem(remainders.as_slice(), moduli.as_slice()) {
            Ok(x) => x,
            Err(e) => {
                return Err(e);
            },
        };
        let sig = Self::pack_signature(e, f, &x);
        proof {
            lemma_be_bytes_value(value(&x));
            assert(sig@.skip(1) =~= be_bytes(value(&x)));
        }
        Ok(sig)
    }

    /// Encodes a signature: the flag byte, then the magnitude as its
    /// shortest big-endian byte string.  Bit 0 of the flag byte is set when
    /// `e` is `-1`, bit 1 when `f` is `2`.
    pub fn pack_signature(e: i32, f: u32, x: &BigUint) -> (sig: Vec<u8>)
        ensures
            sig@ == pack_spec(e as int, f as nat, value(x)),
    {
        let mut sig_bytes = to_bytes_be(x);
        let sign_bit: u8 = if e == -1 {
            1
        } else {
            0
        };
        let factor_bit: u8 = if f == 2 {
            1
        } else {
            0
        };
        let first_byte = sign_bit | (factor_bit << 1);
        proof {
            assert(0u8 | (0u8 << 1) == 0 && 1u8 | (0u8 << 1) == 1 && 0u8 | (1u8 << 1) == 2 && 1u8
                | (1u8 << 1) == 3) by (bit_vector);
        }
        sig_bytes.insert(0, first_byte);
        proof {
            assert(sig_bytes@ =~= pack_spec(e as int, f as nat, value(x)));
        }
        sig_bytes
    }
}

} // verus!
