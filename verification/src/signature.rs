//! The scheme as mathematical functions: the wire format of a signature,
//! what signing produces, what verification accepts and what blinding and
//! unblinding do.  The contracts of the keys refer to these.
//!
//! A signature is a triple `(e, f, x)`: a sign `e` that is `1` or `-1`, a
//! factor `f` that is `1` or `2`, and a magnitude `x`.  On the wire it is one
//! flag byte followed by the magnitude, most significant byte first.

use crate::bytes::{be_bytes, be_value, lemma_be_bytes_value};
use crate::crt::is_crt_solution;
use crate::modular::{coprime, inverse_mod};
use crate::primes::is_prime;
use crate::residues::{residue_form, root_mod};
use vstd::arithmetic::power2::*;
use vstd::prelude::*;

verus! {

/// The flag byte of a signature: bit 0 is set for the sign `-1`, bit 1 for
/// the factor `2`, and no other bit is set.
pub open spec fn flag_byte(e: int, f: nat) -> u8 {
    if e == -1 {
        if f == 2 {
            3u8
        } else {
            1u8
        }
    } else {
        if f == 2 {
            2u8
        } else {
            0u8
        }
    }
}

/// The encoding of a signature: its flag byte, then the shortest big-endian
/// byte string of its magnitude.
pub open spec fn pack_spec(e: int, f: nat, x: nat) -> Seq<u8> {
    seq![flag_byte(e, f)] + be_bytes(x)
}

/// Whether a byte string has the shape of a signature: at least two bytes,
/// the first with bits 2 to 7 clear.
pub open spec fn well_formed(sig: Seq<u8>) -> bool {
    sig.len() >= 2 && sig[0] & 0xFC == 0
}

/// The signature that a byte string encodes, if it has the shape of one.
pub open spec fn extract_spec(sig: Seq<u8>) -> Option<(int, nat, nat)> {
    if well_formed(sig) {
        Some(
            (
                if sig[0] & 1 == 0 {
                    1int
                } else {
                    -1int
                },
                if sig[0] & 2 == 0 {
                    1nat
                } else {
                    2nat
                },
                be_value(sig.skip(1)),
            ),
        )
    } else {
        None
    }
}

/// The message representative that a signature `(e, f, x)` stands for under
/// the modulus `n`: the square of `x`, negated when `e` is `-1` and halved
/// when `f` is `2`, all modulo `n`.  Halving multiplies by `(n + 1) / 2`,
/// which inverts two modulo an odd `n`.
pub open spec fn recovered(e: int, f: nat, x: nat, n: nat) -> nat {
    let square = (x * x) % n;
    let signed = if e == 1 {
        square
    } else {
        ((n - square) as nat) % n
    };
    if f == 1 {
        signed
    } else if e == 1 {
        (square * ((n + 1) / 2)) % n
    } else {
        (((n - square) as nat) * ((n + 1) / 2)) % n
    }
}

/// Whether a byte string is a signature of the representative `h` under the
/// modulus `n`; `None` for a byte string that is no signature at all.
pub open spec fn verify_spec(h: nat, sig: Seq<u8>, n: nat) -> Option<bool> {
    match extract_spec(sig) {
        Some((e, f, x)) => Some(recovered(e, f, x, n) == h),
        None => None,
    }
}

/// The primes of a key: `p` prime and three modulo eight, `q` prime and
/// seven modulo eight.
pub open spec fn valid_primes(p: nat, q: nat) -> bool {
    is_prime(p) && is_prime(q) && p % 8 == 3 && q % 8 == 7
}

/// The representative `a` can be signed under `p` and `q`: it lies below
/// their product and neither of them divides it.
pub open spec fn signable(a: nat, p: nat, q: nat) -> bool {
    a < p * q && a % p != 0 && a % q != 0
}

/// `sig` is the signature of the representative `a` under the primes `p` and
/// `q`: it encodes the sign and factor of the residue form of `a`, and as
/// magnitude the number below `p * q` that is the signer's square root of
/// that form modulo `p` and modulo `q`.
pub open spec fn is_signature(sig: Seq<u8>, a: nat, p: nat, q: nat) -> bool {
    match residue_form(a, p, q) {
        Some((c, e, f)) => {
            let x = be_value(sig.skip(1));
            &&& sig == pack_spec(e, f, x)
            &&& is_crt_solution(x, seq![root_mod(c, p), root_mod(c, q)], seq![p, q])
        },
        None => false,
    }
}

/// `r` can blind a message under the modulus `n`: it lies between one and
/// `n - 1` and is coprime to `n`.
pub open spec fn is_blinding_factor(r: nat, n: nat) -> bool {
    1 <= r < n && coprime(r, n)
}

/// What a requester hands to the signer: the representative `h` masked by
/// the square of the blinding factor `r`, modulo `n`.
pub open spec fn blinded_value(h: nat, r: nat, n: nat) -> nat {
    (((r * r) % n) * h) % n
}

/// What unblinding makes of a blinded signature: the same sign and factor,
/// and the magnitude divided by the blinding factor `r` modulo `n`.  There
/// is no result for a byte string that is no signature, nor for an `r` that
/// has no inverse modulo `n`.
pub open spec fn unblind_spec(sig: Seq<u8>, r: nat, n: nat) -> Option<Seq<u8>> {
    match extract_spec(sig) {
        Some((e, f, x)) => if n > 0 && coprime(r, n) {
            Some(pack_spec(e, f, (inverse_mod(r, n) * x) % n))
        } else {
            None
        },
        None => None,
    }
}

/// `x` has exactly `bits` significant bits.
pub open spec fn has_bit_length(x: nat, bits: nat) -> bool {
    bits >= 1 && pow2((bits - 1) as nat) <= x < pow2(bits)
}

/// Decoding inverts encoding: every signature with a sign of `1` or `-1` and
/// a factor of `1` or `2` is read back from its encoding unchanged, whatever
/// its magnitude.
pub proof fn lemma_extract_pack(e: int, f: nat, x: nat)
    requires
        e == 1 || e == -1,
        f == 1 || f == 2,
    ensures
        extract_spec(pack_spec(e, f, x)) == Some((e, f, x)),
{
    let sig = pack_spec(e, f, x);
    lemma_be_bytes_value(x);
    assert(sig.skip(1) =~= be_bytes(x));
    assert(sig[0] == flag_byte(e, f));
    assert(0u8 & 0xFC == 0 && 1u8 & 0xFC == 0 && 2u8 & 0xFC == 0 && 3u8 & 0xFC == 0)
        by (bit_vector);
    assert(0u8 & 1 == 0 && 1u8 & 1 == 1 && 2u8 & 1 == 0 && 3u8 & 1 == 1) by (bit_vector);
    assert(0u8 & 2 == 0 && 1u8 & 2 == 0 && 2u8 & 2 == 2 && 3u8 & 2 == 2) by (bit_vector);
}

/// Flipping one of the reserved bits, 2 to 7, of the flag byte of a
/// well-formed signature leaves a byte string that is no signature.
pub proof fn lemma_reserved_bit_flip(sig: Seq<u8>, bit: u8)
    requires
        well_formed(sig),
        2 <= bit < 8,
    ensures
        extract_spec(sig.update(0, sig[0] ^ (1u8 << bit))) is None,
{
    let b = sig[0];
    assert(b & 0xFC == 0 && 2 <= bit < 8 ==> (b ^ (1u8 << bit)) & 0xFC != 0) by (bit_vector);
}

/// Changing a byte of the magnitude of a well-formed signature leaves a
/// byte string that is still a signature, with the same sign and factor: to
/// verify it gives an answer, not an error.
pub proof fn lemma_magnitude_change(sig: Seq<u8>, index: int, byte: u8)
    requires
        well_formed(sig),
        1 <= index < sig.len(),
    ensures
        extract_spec(sig.update(index, byte)) is Some,
        extract_spec(sig.update(index, byte))->Some_0.0 == extract_spec(sig)->Some_0.0,
        extract_spec(sig.update(index, byte))->Some_0.1 == extract_spec(sig)->Some_0.1,
{
    assert(sig.update(index, byte)[0] == sig[0]);
}

} // verus!
