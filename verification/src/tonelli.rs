//! The invariants of the Tonelli-Shanks iteration: what it returns is a
//! square root, and for a prime modulus it always closes.

use crate::primes::{is_prime, lemma_euclid, lemma_euler_power_is_sign};
use crate::residues::euler_criterion;
use vstd::arithmetic::div_mod::*;
use vstd::arithmetic::mul::*;
use vstd::arithmetic::power::*;
use vstd::arithmetic::power2::*;
use vstd::prelude::*;

verus! {

/// `t` squared `j` times, modulo `p`: `t^(2^j) mod p`.
pub open spec fn squared_times(t: nat, j: nat, p: nat) -> int {
    pow(t as int, pow2(j)) % (p as int)
}

/// A reduced power raised to a further power is the power to the product
/// of the exponents, reduced.
pub proof fn lemma_power_of_reduced_power(x: int, e: nat, f: nat, p: nat)
    requires
        p > 0,
    ensures
        pow(pow(x, e) % (p as int), f) % (p as int) == pow(x, e * f) % (p as int),
{
    lemma_pow_mod_noop(pow(x, e), f, p as int);
    lemma_pow_multiplies(x, e, f);
}

/// Modulo a prime, one has no square roots but one and minus one.
pub proof fn lemma_sqrt_of_one(s: nat, p: nat)
    requires
        is_prime(p),
        s < p,
        (s * s) % p == 1,
    ensures
        s == 1 || s == p - 1,
{
    let pi = p as int;
    if s == 0 {
        lemma_small_mod(0, p);
        assert(s * s == 0);
    } else {
        let x = (s - 1) as nat;
        let y = (s + 1) as nat;
        assert(x * y == s * s - 1) by (nonlinear_arith)
            requires
                x == s - 1,
                y == s + 1,
        ;
        lemma_small_mod(1, p);
        lemma_mod_equivalence((s * s) as int, 1, pi);
        lemma_euclid(p, x, y);
        if x % p == 0 {
            lemma_small_mod(x, p);
        } else {
            if y < p {
                lemma_small_mod(y, p);
            }
        }
    }
}

/// Squaring once more: the square of `t^(2^j) mod p` is `t^(2^(j+1))`,
/// reduced.
pub proof fn lemma_squared_once_more(t: nat, j: nat, p: nat)
    requires
        p > 0,
    ensures
        (squared_times(t, j, p) * squared_times(t, j, p)) % (p as int) == squared_times(
            t,
            j + 1,
            p,
        ),
{
    let w = pow(t as int, pow2(j));
    lemma_mul_mod_noop(w, w, p as int);
    lemma_pow_adds(t as int, pow2(j), pow2(j));
    lemma_pow2_unfold(j + 1);
}

/// Squaring zero times changes nothing.
pub proof fn lemma_squared_zero_times(t: nat, p: nat)
    requires
        t < p,
    ensures
        squared_times(t, 0, p) == t,
{
    lemma2_to64();
    lemma_pow1(t as int);
    lemma_small_mod(t, p);
}

/// The start of the iteration.  With `p - 1 = q * 2^s`, a number `a` that
/// passes Euler's criterion and a number `z` that fails it, `a^q` squared
/// `s - 1` times is one, and `z^q` squared `s - 1` times is minus one.
pub proof fn lemma_tonelli_orders_start(a: nat, z: nat, q: nat, s: nat, p: nat)
    requires
        is_prime(p),
        p % 2 == 1,
        s >= 1,
        q * pow2(s) == p - 1,
        euler_criterion(a, p),
        0 < z < p,
        !euler_criterion(z, p),
    ensures
        squared_times((pow(a as int, q) % (p as int)) as nat, (s - 1) as nat, p) == 1,
        squared_times((pow(z as int, q) % (p as int)) as nat, (s - 1) as nat, p) == p - 1,
{
    let pi = p as int;
    let e = pow2((s - 1) as nat);
    lemma_pow2_unfold(s);
    assert(q * e == (p - 1) / 2) by (nonlinear_arith)
        requires
            q * (2 * e) == p - 1,
    ;
    lemma_mod_bound(pow(a as int, q), pi);
    lemma_mod_bound(pow(z as int, q), pi);
    lemma_power_of_reduced_power(a as int, q, e, p);
    lemma_power_of_reduced_power(z as int, q, e, p);
    lemma_small_mod(z, p);
    lemma_euler_power_is_sign(z, p);
}

/// One round of the iteration.  If `c` squared `m - 1` times is minus one
/// and `i`, at least one and below `m`, is the least number of squarings
/// that take `t` to one, then with `b = c^(2^(m-i-1))` the new `c = b^2`
/// squared `i - 1` times is minus one, and the new `t = t * b^2` squared
/// `i - 1` times is one.
pub proof fn lemma_tonelli_orders_round(t: nat, c: nat, b: nat, i: nat, m: nat, p: nat)
    requires
        is_prime(p),
        p > 2,
        1 <= i < m,
        squared_times(c, (m - 1) as nat, p) == p - 1,
        squared_times(t, i, p) == 1,
        squared_times(t, (i - 1) as nat, p) != 1,
        b == pow(c as int, pow2((m - i - 1) as nat)) % (p as int),
    ensures
        squared_times((b * b) % p, (i - 1) as nat, p) == p - 1,
        squared_times((t * ((b * b) % p)) % p, (i - 1) as nat, p) == 1,
{
    let pi = p as int;
    let e = pow2((i - 1) as nat);
    let c2 = (b * b) % p;
    // t squared i - 1 times is a square root of one other than one
    let u = squared_times(t, (i - 1) as nat, p);
    lemma_squared_once_more(t, (i - 1) as nat, p);
    lemma_mod_bound(pow(t as int, e), pi);
    lemma_sqrt_of_one(u as nat, p);
    assert(u == p - 1);
    // b squared i times is c squared m - 1 times
    lemma_power_of_reduced_power(c as int, pow2((m - i - 1) as nat), pow2(i), p);
    lemma_pow2_adds((m - i - 1) as nat, i);
    assert(pow(b as int, pow2(i)) % pi == p - 1);
    // the new c
    lemma_pow_mod_noop((b * b) as int, e, pi);
    lemma_pow_distributes(b as int, b as int, e);
    lemma_pow_adds(b as int, e, e);
    lemma_pow2_unfold(i);
    assert(pow(c2 as int, e) % pi == p - 1);
    // the new t
    lemma_pow_mod_noop((t * c2) as int, e, pi);
    lemma_pow_distributes(t as int, c2 as int, e);
    lemma_mul_mod_noop(pow(t as int, e), pow(c2 as int, e), pi);
    assert((pi - 1) * (pi - 1) == pi * (pi - 2) + 1) by (nonlinear_arith);
    lemma_mod_multiples_vanish(pi - 2, 1, pi);
    lemma_small_mod(1, p);
}

/// The start of the Tonelli-Shanks iteration: with `q` odd, the square of
/// `a^((q+1)/2)` is `a` times `a^q`.
pub proof fn lemma_tonelli_start(a: nat, q: nat, p: nat)
    requires
        p > 0,
        q % 2 == 1,
    ensures
        ({
            let r = pow(a as int, (q + 1) / 2) % (p as int);
            let t = pow(a as int, q) % (p as int);
            (r * r) % (p as int) == (a * t) % (p as int)
        }),
{
    let ai = a as int;
    let pi = p as int;
    let e: nat = (q + 1) / 2;
    let y = pow(ai, e);
    assert(e + e == q + 1);
    lemma_pow_adds(ai, e, e);
    lemma_pow_adds(ai, 1, q);
    lemma_pow1(ai);
    assert(y * y == ai * pow(ai, q));
    lemma_mul_mod_noop(y, y, pi);
    lemma_mul_mod_noop_right(ai, pow(ai, q), pi);
}

/// One round of the Tonelli-Shanks iteration keeps the square of `r`
/// congruent to `a` times `t`.
pub proof fn lemma_tonelli_step(a: nat, r: nat, t: nat, b: nat, p: nat)
    requires
        p > 0,
        (r * r) % p == (a * t) % p,
    ensures
        ({
            let r2 = (r * b) % p;
            let c2 = (b * b) % p;
            let t2 = (t * c2) % p;
            (r2 * r2) % p == (a * t2) % p
        }),
{
    let pi = p as int;
    let r2 = (r * b) % p;
    let c2 = (b * b) % p;
    let t2 = (t * c2) % p;
    let bb = b * b;
    // left side: (r b)^2 = r^2 b^2
    lemma_mul_mod_noop((r * b) as int, (r * b) as int, pi);
    assert((r * b) * (r * b) == (r * r) * bb) by (nonlinear_arith)
        requires
            bb == b * b,
    ;
    lemma_mul_mod_noop_left((r * r) as int, bb as int, pi);
    lemma_mul_mod_noop_left((a * t) as int, bb as int, pi);
    assert((r2 * r2) % p == ((a * t) * bb) % p);
    // right side: a (t b^2)
    lemma_mul_mod_noop_right(t as int, bb as int, pi);
    lemma_mul_mod_noop_right(a as int, (t * c2) as int, pi);
    lemma_mul_mod_noop_right(a as int, (t * bb) as int, pi);
    lemma_mul_is_associative(a as int, t as int, bb as int);
}

} // verus!
