//! What holds of the scheme as a whole: signatures verify, and so do
//! signatures obtained through the blind exchange.

use crate::bytes::be_value;
use crate::crt::is_crt_solution;
use crate::modular::{
    coprime, divides, inverse_mod, lemma_congruent_modulo_product, lemma_inverse_exists,
    lemma_mod_of_mod, lemma_multiple_divides,
};
use crate::primes::{
    is_prime, lemma_distinct_primes_coprime, lemma_euclid, lemma_residue_form_exists,
};
use crate::residues::{
    euler_criterion, joint_residue, lemma_euler_criterion_reduced, lemma_multiple_is_no_residue,
    lemma_sqrt_three_mod_four, residue_form, root_mod,
};
use crate::signature::{
    blinded_value, is_blinding_factor, is_signature, lemma_extract_pack, pack_spec, recovered,
    signable, unblind_spec, valid_primes, verify_spec,
};
use vstd::arithmetic::div_mod::*;
use vstd::arithmetic::mul::*;
use vstd::prelude::*;

verus! {

/// The product of two odd numbers is odd.
proof fn lemma_odd_product(p: nat, q: nat)
    requires
        p % 2 == 1,
        q % 2 == 1,
    ensures
        (p * q) % 2 == 1,
{
    lemma_mul_mod_noop(p as int, q as int, 2);
}

/// Multiplying twice a number by `(n + 1) / 2` gives the number back modulo
/// an odd `n`.
proof fn lemma_halving(t: int, n: nat)
    requires
        n % 2 == 1,
    ensures
        (2 * t * ((n + 1) / 2)) % (n as int) == t % (n as int),
{
    let half = ((n + 1) / 2) as int;
    assert(2 * t * half == n * t + t) by (nonlinear_arith)
        requires
            2 * half == n + 1,
    ;
    lemma_mod_multiples_vanish(t, t, n as int);
}

/// Negating a reduced number: `n - (z mod n)` is congruent to `-z`.
proof fn lemma_negation(z: int, n: nat)
    requires
        n > 0,
    ensures
        (n - z % (n as int)) % (n as int) == (-z) % (n as int),
{
    let ni = n as int;
    lemma_sub_mod_noop_right(ni, z, ni);
    lemma_mod_multiples_vanish(1, -z, ni);
}

/// The signer's square root modulo a prime that is three modulo four squares
/// to the number it was taken of.
pub proof fn lemma_root_mod_squares(c: nat, p: nat)
    requires
        p % 4 == 3,
        euler_criterion(c, p),
    ensures
        root_mod(c, p) < p,
        (root_mod(c, p) * root_mod(c, p)) % p == c % p,
{
    lemma_euler_criterion_reduced(c, p);
    lemma_sqrt_three_mod_four(c % p, p);
    lemma_mod_twice(c as int, p as int);
}

/// The magnitude that combines the signer's square roots modulo `p` and `q`
/// squares, modulo `p * q`, to the number that the roots were taken of.
pub proof fn lemma_magnitude_squares(x: nat, c: nat, p: nat, q: nat)
    requires
        p % 4 == 3,
        q % 4 == 3,
        coprime(p, q),
        joint_residue(c, p, q),
        is_crt_solution(x, seq![root_mod(c, p), root_mod(c, q)], seq![p, q]),
    ensures
        (x * x) % (p * q) == c % (p * q),
{
    let rs = seq![root_mod(c, p), root_mod(c, q)];
    let ms = seq![p, q];
    lemma_root_mod_squares(c, p);
    lemma_root_mod_squares(c, q);
    assert(x % ms[0] == rs[0] % ms[0]);
    assert(x % ms[1] == rs[1] % ms[1]);
    lemma_small_mod(root_mod(c, p), p);
    lemma_small_mod(root_mod(c, q), q);
    lemma_mul_mod_noop(x as int, x as int, p as int);
    lemma_mul_mod_noop(x as int, x as int, q as int);
    lemma_congruent_modulo_product((x * x) as int, c as int, p, q);
}

/// Undoing the residue form: if the square of `x` is congruent to `w` times
/// the residue form of `b`, then what `(e, f, x)` stands for is `b * w`
/// reduced.
pub proof fn lemma_recovered_from_form(b: nat, p: nat, q: nat, x: nat, w: nat)
    requires
        p % 2 == 1,
        q % 2 == 1,
        residue_form(b, p, q) is Some,
        (x * x) % (p * q) == (residue_form(b, p, q)->Some_0.0 * w) % (p * q),
    ensures
        recovered(
            residue_form(b, p, q)->Some_0.1,
            residue_form(b, p, q)->Some_0.2,
            x,
            p * q,
        ) == (b * w) % (p * q),
{
    let n = p * q;
    let ni = n as int;
    let (c, e, f) = residue_form(b, p, q)->Some_0;
    lemma_odd_product(p, q);
    let y = (x * x) % n;
    let half = (n + 1) / 2;
    let neg = (n - b) as nat;
    let bw = (b * w) as int;
    lemma_mod_bound((x * x) as int, ni);
    if e == 1 && f == 1 {
    } else if f == 1 {
        assert(c == neg);
        lemma_negation((c * w) as int, n);
        assert(-((c * w) as int) == ni * (-(w as int)) + bw) by (nonlinear_arith)
            requires
                c == n - b,
                bw == b * w,
                ni == n,
        ;
        lemma_mod_multiples_vanish(-(w as int), bw, ni);
    } else if e == 1 {
        assert(c == (2 * b) % n);
        lemma_mul_mod_noop_left((c * w) as int, half as int, ni);
        lemma_mul_mod_noop_left((2 * b) as int, w as int, ni);
        lemma_mul_mod_noop_left((2 * b * w) as int, half as int, ni);
        assert((2 * b) * w == 2 * b * w);
        assert(2 * b * w * half == 2 * bw * half) by (nonlinear_arith)
            requires
                bw == b * w,
        ;
        lemma_halving(bw, n);
    } else {
        assert(c == (2 * neg) % n);
        // n - y is congruent to twice b * w
        lemma_negation((c * w) as int, n);
        lemma_mul_mod_noop_left((2 * neg) as int, w as int, ni);
        lemma_sub_mod_noop_right(0, (c * w) as int, ni);
        lemma_sub_mod_noop_right(0, (2 * neg * w) as int, ni);
        assert((2 * neg) * w == 2 * neg * w);
        assert(0 - 2 * neg * w == ni * (-2 * (w as int)) + 2 * bw) by (nonlinear_arith)
            requires
                neg == n - b,
                bw == b * w,
                ni == n,
        ;
        lemma_mod_multiples_vanish(-2 * (w as int), 2 * bw, ni);
        assert(((n - y) as int) % ni == (2 * bw) % ni);
        lemma_mul_mod_noop_left((n - y) as int, half as int, ni);
        lemma_mul_mod_noop_left(2 * bw, half as int, ni);
        lemma_halving(bw, n);
    }
}

/// No representative up to the modulus that has a residue form is zero or
/// the modulus itself.
pub proof fn lemma_form_below_modulus(a: nat, p: nat, q: nat)
    requires
        residue_form(a, p, q) is Some,
        a <= p * q,
        p % 2 == 1,
        q % 2 == 1,
    ensures
        0 < a < p * q,
        p >= 3 && q >= 3,
{
    let n = p * q;
    let (c, e, f) = residue_form(a, p, q)->Some_0;
    assert(euler_criterion(c, p) && euler_criterion(c, q));
    lemma_mul_strictly_positive(p as int, q as int);
    if a == 0 || a == n {
        // every form is then a multiple of p
        lemma_mod_multiples_basic(q as int, p as int);
        assert((q * p) % p == 0);
        lemma_mul_is_commutative(p as int, q as int);
        lemma_small_mod(0, p);
        lemma_small_mod(0, n);
        lemma_mod_self_0(n as int);
        lemma_mod_multiples_basic(2, n as int);
        assert(c % p == 0);
        lemma_multiple_is_no_residue(c, p);
    }
}

/// A signature verifies: a signature of a representative `a` up to the
/// modulus, under primes `p` and `q` that are coprime and both three modulo
/// four, is accepted for `a` under the modulus `p * q`.
pub proof fn lemma_signature_verifies(sig: Seq<u8>, a: nat, p: nat, q: nat)
    requires
        p % 4 == 3,
        q % 4 == 3,
        coprime(p, q),
        a <= p * q,
        is_signature(sig, a, p, q),
    ensures
        p * q > 0,
        verify_spec(a, sig, p * q) == Some(true),
{
    let n = p * q;
    lemma_mul_strictly_positive(p as int, q as int);
    let (c, e, f) = residue_form(a, p, q)->Some_0;
    let x = be_value(sig.skip(1));
    lemma_extract_pack(e, f, x);
    lemma_magnitude_squares(x, c, p, q);
    assert(c * 1 == c);
    lemma_recovered_from_form(a, p, q, x, 1);
    lemma_form_below_modulus(a, p, q);
    assert(a * 1 == a);
    lemma_small_mod(a, n);
}

/// A representative that is not zero and lies below both primes can be
/// signed.
pub proof fn lemma_small_representative_signable(a: nat, p: nat, q: nat)
    requires
        0 < a < p,
        a < q,
    ensures
        signable(a, p, q),
{
    lemma_small_mod(a, p);
    lemma_small_mod(a, q);
    assert(a < p * q) by (nonlinear_arith)
        requires
            0 < a < p,
            a < q,
    ;
}

/// Signing and verifying, from end to end.  Under valid primes every
/// representative that lies below the modulus and is coprime to it has a
/// residue form, so that signing it succeeds, and whatever is a signature of
/// it verifies.
pub proof fn lemma_sign_verify_round_trip(a: nat, p: nat, q: nat)
    requires
        valid_primes(p, q),
        signable(a, p, q),
    ensures
        coprime(p, q),
        residue_form(a, p, q) is Some,
        forall|sig: Seq<u8>| #[trigger]
            is_signature(sig, a, p, q) ==> verify_spec(a, sig, p * q) == Some(true),
{
    lemma_distinct_primes_coprime(p, q);
    lemma_residue_form_exists(a, p, q);
    assert forall|sig: Seq<u8>| #[trigger] is_signature(sig, a, p, q) implies verify_spec(
        a,
        sig,
        p * q,
    ) == Some(true) by {
        lemma_signature_verifies(sig, a, p, q);
    }
}

/// Dividing by the blinding factor undoes the blinding: with `v` the
/// inverse of `r` modulo `n`, the blinded value of `a` times the square of
/// `v` is congruent to `a`.
proof fn lemma_blinding_cancels(a: nat, r: nat, v: nat, n: nat)
    requires
        n > 0,
        (r * v) % n == 1nat % n,
    ensures
        (blinded_value(a, r, n) * (v * v)) % n == a % n,
{
    let ni = n as int;
    let b = blinded_value(a, r, n);
    let vv = v * v;
    let rr = r * r;
    lemma_mul_mod_noop_left(((rr % n) * a) as int, vv as int, ni);
    lemma_mul_mod_noop_left(rr as int, a as int, ni);
    lemma_mul_mod_noop_left((rr * a) as int, vv as int, ni);
    assert((b * vv) % n == ((rr * a) * vv) % n);
    assert((rr * a) * vv == a * ((r * v) * (r * v))) by (nonlinear_arith)
        requires
            rr == r * r,
            vv == v * v,
    ;
    lemma_mul_mod_noop((r * v) as int, (r * v) as int, ni);
    lemma_mul_mod_noop(1, 1, ni);
    assert(1 * 1 == 1);
    lemma_mul_mod_noop_right(a as int, ((r * v) * (r * v)) as int, ni);
    lemma_mul_mod_noop_right(a as int, 1, ni);
    assert(a * 1 == a);
}

/// The blind exchange yields a valid signature: if the signer signs the
/// blinded value of the representative `a`, and the requester unblinds the
/// result with the blinding factor that it used, then what comes out is
/// accepted for `a`.  The primes are coprime and both three modulo four, and
/// `a` lies below the modulus.
pub proof fn lemma_blind_signature_verifies(blinded_sig: Seq<u8>, a: nat, r: nat, p: nat, q: nat)
    requires
        p % 4 == 3,
        q % 4 == 3,
        coprime(p, q),
        a < p * q,
        is_blinding_factor(r, p * q),
        is_signature(blinded_sig, blinded_value(a, r, p * q), p, q),
    ensures
        unblind_spec(blinded_sig, r, p * q) is Some,
        verify_spec(a, unblind_spec(blinded_sig, r, p * q)->Some_0, p * q) == Some(true),
{
    let n = p * q;
    let ni = n as int;
    let b = blinded_value(a, r, n);
    let (c, e, f) = residue_form(b, p, q)->Some_0;
    let x1 = be_value(blinded_sig.skip(1));
    lemma_extract_pack(e, f, x1);
    lemma_inverse_exists(r, n);
    let v = inverse_mod(r, n);
    let x = (v * x1) % n;
    let sig = pack_spec(e, f, x);
    assert(unblind_spec(blinded_sig, r, n) == Some(sig));
    lemma_extract_pack(e, f, x);
    // the square of the unblinded magnitude
    lemma_magnitude_squares(x1, c, p, q);
    lemma_mul_mod_noop((v * x1) as int, (v * x1) as int, ni);
    assert((v * x1) * (v * x1) == (x1 * x1) * (v * v)) by (nonlinear_arith);
    lemma_mul_mod_noop_left((x1 * x1) as int, (v * v) as int, ni);
    lemma_mul_mod_noop_left(c as int, (v * v) as int, ni);
    assert((x * x) % n == (c * (v * v)) % n);
    lemma_recovered_from_form(b, p, q, x, v * v);
    lemma_blinding_cancels(a, r, v, n);
    lemma_small_mod(a, n);
}

/// A prime factor of the modulus that does not divide the representative
/// does not divide its blinded value either.
proof fn lemma_blinded_value_nonzero(a: nat, r: nat, m: nat, n: nat)
    requires
        is_prime(m),
        divides(m, n),
        n > 0,
        a % m != 0,
        coprime(r, n),
    ensures
        blinded_value(a, r, n) % m != 0,
{
    let mi = m as int;
    let rr = r * r;
    if r % m == 0 {
        assert(divides(m, r) && divides(m, n));
    }
    lemma_mod_of_mod((rr % n) * a, m, n);
    lemma_mod_of_mod(rr, m, n);
    lemma_mul_mod_noop_left((rr % n) as int, a as int, mi);
    lemma_mul_mod_noop_left(rr as int, a as int, mi);
    assert(blinded_value(a, r, n) % m == (rr * a) % m);
    if (rr * a) % m == 0 {
        lemma_euclid(m, rr, a);
        lemma_euclid(m, r, r);
    }
}

/// Blinding keeps a representative signable: under valid primes the blinded
/// value of a signable representative is signable, whatever blinding factor
/// is used.
pub proof fn lemma_blinded_value_signable(a: nat, r: nat, p: nat, q: nat)
    requires
        valid_primes(p, q),
        signable(a, p, q),
        is_blinding_factor(r, p * q),
    ensures
        signable(blinded_value(a, r, p * q), p, q),
{
    let n = p * q;
    let b = blinded_value(a, r, n);
    lemma_mod_bound((((r * r) % n) * a) as int, n as int);
    lemma_multiple_divides(p, q);
    lemma_multiple_divides(q, p);
    lemma_mul_is_commutative(p as int, q as int);
    lemma_blinded_value_nonzero(a, r, p, n);
    lemma_blinded_value_nonzero(a, r, q, n);
}

/// The blind exchange, from end to end.  Under valid primes, for every
/// signable representative and every blinding factor: the blinded value can
/// be signed, and unblinding whatever is a signature of it gives a signature
/// that verifies for the representative itself.
pub proof fn lemma_blind_protocol(a: nat, r: nat, p: nat, q: nat)
    requires
        valid_primes(p, q),
        signable(a, p, q),
        is_blinding_factor(r, p * q),
    ensures
        residue_form(blinded_value(a, r, p * q), p, q) is Some,
        forall|blinded_sig: Seq<u8>| #[trigger]
            is_signature(blinded_sig, blinded_value(a, r, p * q), p, q) ==> {
                &&& unblind_spec(blinded_sig, r, p * q) is Some
                &&& verify_spec(a, unblind_spec(blinded_sig, r, p * q)->Some_0, p * q) == Some(
                    true,
                )
            },
{
    let n = p * q;
    let b = blinded_value(a, r, n);
    lemma_distinct_primes_coprime(p, q);
    lemma_blinded_value_signable(a, r, p, q);
    lemma_residue_form_exists(b, p, q);
    assert forall|blinded_sig: Seq<u8>| #[trigger]
        is_signature(blinded_sig, b, p, q) implies {
        &&& unblind_spec(blinded_sig, r, n) is Some
        &&& verify_spec(a, unblind_spec(blinded_sig, r, n)->Some_0, n) == Some(true)
    } by {
        lemma_blind_signature_verifies(blinded_sig, a, r, p, q);
    }
}

} // verus!
