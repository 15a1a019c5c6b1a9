//! Euler's criterion, the residue forms of a number under two primes, and
//! the square roots that the signer takes.

use vstd::arithmetic::div_mod::*;
use vstd::arithmetic::power::*;
use vstd::prelude::*;

verus! {

/// `a` passes Euler's criterion for being a square modulo `p`:
/// `a^((p-1)/2) mod p` is one.  No number passes it for a modulus below two.
pub open spec fn euler_criterion(a: nat, p: nat) -> bool {
    p > 1 && pow(a as int, ((p - 1) / 2) as nat) % (p as int) == 1
}

/// `x` is a square root of `a` modulo `p`, reduced below `p`.
pub open spec fn is_sqrt_mod(x: nat, a: nat, p: nat) -> bool {
    p > 0 && x < p && (x * x) % p == a % p
}

/// `c` passes Euler's criterion modulo both `p` and `q`.
pub open spec fn joint_residue(c: nat, p: nat, q: nat) -> bool {
    euler_criterion(c, p) && euler_criterion(c, q)
}

/// The form of `a` that passes Euler's criterion modulo both `p` and `q`,
/// with the sign `e` and the factor `f` that led to it.  The forms are tried
/// in the order `a`, `n - a`, `2a mod n`, `2(n - a) mod n`, with `n = p * q`,
/// and the first that passes is taken.  A number above `n` has no form but
/// itself: it cannot be negated.  There is no form when none passes.
pub open spec fn residue_form(a: nat, p: nat, q: nat) -> Option<(nat, int, nat)> {
    let n = p * q;
    let neg = (n - a) as nat;
    if joint_residue(a, p, q) {
        Some((a, 1int, 1nat))
    } else if a > n {
        None
    } else if joint_residue(neg, p, q) {
        Some((neg, -1int, 1nat))
    } else if joint_residue((2 * a) % n, p, q) {
        Some(((2 * a) % n, 1int, 2nat))
    } else if joint_residue((2 * neg) % n, p, q) {
        Some(((2 * neg) % n, -1int, 2nat))
    } else {
        None
    }
}

/// The square root that the signer takes of `c` modulo a prime `p` that is
/// three modulo four: `c^((p+1)/4) mod p`.
pub open spec fn root_mod(c: nat, p: nat) -> nat {
    (pow((c % p) as int, (p + 1) / 4) % (p as int)) as nat
}

/// Euler's criterion depends on the number only through its remainder.
pub proof fn lemma_euler_criterion_reduced(a: nat, p: nat)
    requires
        p > 0,
    ensures
        euler_criterion(a % p, p) == euler_criterion(a, p),
{
    lemma_pow_mod_noop(a as int, ((p - 1) / 2) as nat, p as int);
}

/// For a modulus that is three modulo four, a number that passes Euler's
/// criterion has the square root `a^((p+1)/4)`.
pub proof fn lemma_sqrt_three_mod_four(a: nat, p: nat)
    requires
        p % 4 == 3,
        euler_criterion(a, p),
    ensures
        is_sqrt_mod((pow(a as int, (p + 1) / 4) % (p as int)) as nat, a, p),
{
    let ai = a as int;
    let pi = p as int;
    let e: nat = (p + 1) / 4;
    let h: nat = ((p - 1) / 2) as nat;
    let y = pow(ai, e);
    assert(e + e == h + 1);
    lemma_pow_adds(ai, e, e);
    lemma_pow_adds(ai, h, 1);
    lemma_pow1(ai);
    assert(y * y == pow(ai, h) * ai);
    lemma_mod_bound(y, pi);
    lemma_mul_mod_noop(y, y, pi);
    lemma_mul_mod_noop_left(pow(ai, h), ai, pi);
    assert(1 * ai == ai);
}

/// A multiple of the modulus fails Euler's criterion for a modulus of at
/// least three.
pub proof fn lemma_multiple_is_no_residue(a: nat, p: nat)
    requires
        p >= 3,
        a % p == 0,
    ensures
        !euler_criterion(a, p),
{
    let h: nat = ((p - 1) / 2) as nat;
    lemma_euler_criterion_reduced(a, p);
    lemma0_pow(h);
    lemma_small_mod(0, p);
}

/// The modulus itself fails Euler's criterion, for a modulus of at least
/// three.
pub proof fn lemma_modulus_is_no_residue(p: nat)
    requires
        p >= 3,
    ensures
        !euler_criterion(p, p),
{
    lemma_mod_self_0(p as int);
    lemma_multiple_is_no_residue(p, p);
}

} // verus!
