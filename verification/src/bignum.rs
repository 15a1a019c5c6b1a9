//! Arbitrary-precision naturals.
//!
//! The integers of this crate are `num_bigint::BigUint` values.  The verifier
//! cannot look inside one, so every operation on them that the crate uses is
//! declared here together with the arithmetic fact that is taken on trust
//! about it.  Nothing in this module is proved; the arithmetic of the rest of
//! the crate is proved from what is stated here.

use crate::bytes::{be_bytes, be_value};
use crate::modular::is_gcd;
use num_bigint::BigUint;
use num_bigint::RandBigInt;
use vstd::arithmetic::power::pow;
use vstd::arithmetic::power2::pow2;
use vstd::prelude::*;

verus! {

/// `num_bigint::BigUint`, carried through verified code as an opaque value.
#[verifier::external_type_specification]
#[verifier::external_body]
pub struct ExBigUint(num_bigint::BigUint);

/// The natural number that a `BigUint` holds.
pub uninterp spec fn value(x: &BigUint) -> nat;

/// `BigUint::from` on a `u64`: the result holds the same number.
#[verifier::external_body]
pub(crate) fn from_u64(v: u64) -> (r: BigUint)
    ensures
        value(&r) == v,
{
    BigUint::from(v)
}

/// `BigUint::clone`: the copy holds the same number.
pub assume_specification[ <BigUint as Clone>::clone ](x: &BigUint) -> (r: BigUint)
    ensures
        value(&r) == value(x),
;

/// `BigUint::from_bytes_be`: the bytes are read as one big-endian number.
#[verifier::external_body]
pub(crate) fn from_bytes_be(bytes: &[u8]) -> (r: BigUint)
    ensures
        value(&r) == be_value(bytes@),
{
    BigUint::from_bytes_be(bytes)
}

/// `BigUint::to_bytes_be`: the shortest big-endian byte string of the number,
/// which for zero is the single byte `0`.
#[verifier::external_body]
pub(crate) fn to_bytes_be(x: &BigUint) -> (r: Vec<u8>)
    ensures
        r@ == be_bytes(value(x)),
{
    x.to_bytes_be()
}

/// `BigUint::bits`: the number of significant bits, zero for zero.
#[verifier::external_body]
pub(crate) fn bit_length(x: &BigUint) -> (r: u64)
    ensures
        value(x) < pow2(r as nat),
        r > 0 ==> pow2((r - 1) as nat) <= value(x),
{
    x.bits()
}

/// `==` on `BigUint`: equality of the numbers.
#[verifier::external_body]
pub(crate) fn equal(a: &BigUint, b: &BigUint) -> (r: bool)
    ensures
        r == (value(a) == value(b)),
{
    a == b
}

/// `<` on `BigUint`: the order of the numbers.
#[verifier::external_body]
pub(crate) fn less(a: &BigUint, b: &BigUint) -> (r: bool)
    ensures
        r == (value(a) < value(b)),
{
    a < b
}

/// `+` on `BigUint`.
#[verifier::external_body]
pub(crate) fn sum(a: &BigUint, b: &BigUint) -> (r: BigUint)
    ensures
        value(&r) == value(a) + value(b),
{
    a + b
}

/// `-` on `BigUint`, which panics when the result would be negative.
#[verifier::external_body]
pub(crate) fn difference(a: &BigUint, b: &BigUint) -> (r: BigUint)
    requires
        value(a) >= value(b),
    ensures
        value(&r) == value(a) - value(b),
{
    a - b
}

/// `*` on `BigUint`.
#[verifier::external_body]
pub(crate) fn product(a: &BigUint, b: &BigUint) -> (r: BigUint)
    ensures
        value(&r) == value(a) * value(b),
{
    a * b
}

/// `/` on `BigUint`, which rounds down and panics on a zero divisor.
#[verifier::external_body]
pub(crate) fn quotient(a: &BigUint, b: &BigUint) -> (r: BigUint)
    requires
        value(b) != 0,
    ensures
        value(&r) == value(a) / value(b),
{
    a / b
}

/// `%` on `BigUint`, which panics on a zero divisor.
#[verifier::external_body]
pub(crate) fn remainder(a: &BigUint, b: &BigUint) -> (r: BigUint)
    requires
        value(b) != 0,
    ensures
        value(&r) == value(a) % value(b),
{
    a % b
}

/// `<<` on `BigUint`: multiplication by a power of two.
#[verifier::external_body]
pub(crate) fn shift_left(a: &BigUint, k: u64) -> (r: BigUint)
    ensures
        value(&r) == value(a) * pow2(k as nat),
{
    a << k
}

/// `BigUint::modpow`: the power reduced by the modulus; panics on a zero
/// modulus.
#[verifier::external_body]
pub(crate) fn modpow(base: &BigUint, exponent: &BigUint, modulus: &BigUint) -> (r: BigUint)
    requires
        value(modulus) != 0,
    ensures
        value(&r) == pow(value(base) as int, value(exponent)) % (value(modulus) as int),
{
    base.modpow(exponent, modulus)
}

/// `num_integer::Integer::gcd` on `BigUint`.
#[verifier::external_body]
pub(crate) fn gcd(a: &BigUint, b: &BigUint) -> (r: BigUint)
    ensures
        is_gcd(value(&r), value(a), value(b)),
{
    num_integer::Integer::gcd(a, b)
}

/// `RandBigInt::gen_biguint_range` on the thread's generator: some number at
/// least `low` and below `high`; panics on an empty range.
#[verifier::external_body]
pub(crate) fn random_in_range(low: &BigUint, high: &BigUint) -> (r: BigUint)
    requires
        value(low) < value(high),
    ensures
        value(low) <= value(&r) < value(high),
{
    rand::thread_rng().gen_biguint_range(low, high)
}

/// `num_prime::nt_funcs::is_prime` with its default configuration, read
/// through `Primality::probably`.  The test draws random witnesses, so
/// nothing is stated of its answer.
#[verifier::external_body]
pub(crate) fn is_probably_prime(x: &BigUint) -> (r: bool)
{
    num_prime::nt_funcs::is_prime(x, Some(num_prime::PrimalityTestConfig::default())).probably()
}

} // verus!
