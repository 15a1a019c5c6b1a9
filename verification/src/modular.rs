//! Divisibility, greatest common divisors and inverses modulo a number.

use vstd::arithmetic::div_mod::*;
use vstd::arithmetic::mul::*;
use vstd::prelude::*;

verus! {

/// `d` is a positive divisor of `a`.
pub open spec fn divides(d: nat, a: nat) -> bool {
    d > 0 && a % d == 0
}

/// `a` and `b` have no common divisor other than one.
pub open spec fn coprime(a: nat, b: nat) -> bool {
    forall|d: nat| #[trigger] divides(d, a) && divides(d, b) ==> d == 1
}

/// `d` is the greatest common divisor of `a` and `b`; of two zeros it is zero.
pub open spec fn is_gcd(d: nat, a: nat, b: nat) -> bool {
    if a == 0 && b == 0 {
        d == 0
    } else {
        &&& divides(d, a)
        &&& divides(d, b)
        &&& forall|c: nat| #[trigger] divides(c, a) && divides(c, b) ==> c <= d
    }
}

/// `x` is the inverse of `a` modulo `m`, reduced below `m`.
pub open spec fn is_inverse_mod(x: nat, a: nat, m: nat) -> bool {
    m > 0 && x < m && (a * x) % m == 1nat % m
}

/// The inverse of `a` modulo `m`, where there is one.
pub open spec fn inverse_mod(a: nat, m: nat) -> nat {
    choose|x: nat| is_inverse_mod(x, a, m)
}

/// A multiple of `d` leaves no remainder.
pub proof fn lemma_multiple_divides(d: nat, k: nat)
    requires
        d > 0,
    ensures
        divides(d, d * k),
        divides(d, k * d),
{
    lemma_mod_multiples_basic(k as int, d as int);
    lemma_mul_is_commutative(k as int, d as int);
}

/// Whatever `d` divides is `d` times its quotient.
pub proof fn lemma_divides_quotient(d: nat, a: nat)
    requires
        divides(d, a),
    ensures
        a == d * (a / d),
{
    lemma_fundamental_div_mod(a as int, d as int);
}

/// A divisor of two numbers divides their sum and, where it is defined,
/// their difference.
pub proof fn lemma_divides_sum(d: nat, a: nat, b: nat)
    requires
        divides(d, a),
        divides(d, b),
    ensures
        divides(d, a + b),
        a >= b ==> divides(d, (a - b) as nat),
{
    lemma_divides_quotient(d, a);
    lemma_divides_quotient(d, b);
    let x = a / d;
    let y = b / d;
    assert(a + b == d * (x + y)) by (nonlinear_arith)
        requires
            a == d * x,
            b == d * y,
    ;
    lemma_multiple_divides(d, x + y);
    if a >= b {
        assert(x >= y) by (nonlinear_arith)
            requires
                a == d * x,
                b == d * y,
                a >= b,
                d > 0,
        ;
        assert(a - b == d * (x - y)) by (nonlinear_arith)
            requires
                a == d * x,
                b == d * y,
        ;
        lemma_multiple_divides(d, (x - y) as nat);
    }
}

/// A divisor of `a` divides every multiple of `a`.
pub proof fn lemma_divides_multiple(d: nat, a: nat, k: nat)
    requires
        divides(d, a),
    ensures
        divides(d, a * k),
        divides(d, k * a),
{
    lemma_divides_quotient(d, a);
    let x = a / d;
    assert(a * k == d * (x * k)) by (nonlinear_arith)
        requires
            a == d * x,
    ;
    lemma_multiple_divides(d, x * k);
    lemma_mul_is_commutative(a as int, k as int);
}

/// Divisibility is transitive.
pub proof fn lemma_divides_transitive(d: nat, a: nat, b: nat)
    requires
        divides(d, a),
        divides(a, b),
    ensures
        divides(d, b),
{
    lemma_divides_quotient(a, b);
    lemma_divides_multiple(d, a, b / a);
}

/// The common divisors of `a` and `b` are those of `b` and `a mod b`.
pub proof fn lemma_divides_remainder(d: nat, a: nat, b: nat)
    requires
        b > 0,
        d > 0,
    ensures
        (divides(d, a) && divides(d, b)) <==> (divides(d, b) && divides(d, a % b)),
{
    lemma_fundamental_div_mod(a as int, b as int);
    let q = a / b;
    let r = a % b;
    assert(a == b * q + r);
    if divides(d, b) {
        lemma_divides_multiple(d, b, q);
        if divides(d, a) {
            lemma_divides_sum(d, a, b * q);
            assert((a - b * q) as nat == r);
        }
        if divides(d, r) {
            lemma_divides_sum(d, b * q, r);
        }
    }
}

/// Reducing by a multiple of `k` first does not change the remainder
/// modulo `k`.
pub proof fn lemma_mod_of_mod(x: nat, k: nat, n: nat)
    requires
        n > 0,
        divides(k, n),
    ensures
        (x % n) % k == x % k,
{
    lemma_divides_quotient(k, n);
    let c = n / k;
    assert(c > 0) by (nonlinear_arith)
        requires
            n == k * c,
            n > 0,
    ;
    lemma_mod_mod(x as int, k as int, c as int);
}

/// Bezout's identity: some combination `a * u + b * v` of two numbers, not
/// both zero, is a common divisor of them.
pub proof fn lemma_bezout(a: nat, b: nat) -> (r: (int, int, nat))
    requires
        a > 0 || b > 0,
    ensures
        a * r.0 + b * r.1 == r.2,
        divides(r.2, a),
        divides(r.2, b),
    decreases b,
{
    if b == 0 {
        lemma_mod_self_0(a as int);
        lemma_small_mod(0, a);
        (1, 0, a)
    } else {
        let (u, v, g) = lemma_bezout(b, a % b);
        lemma_divides_remainder(g, a, b);
        lemma_fundamental_div_mod(a as int, b as int);
        let k = (a / b) as int;
        assert(a * v + b * (u - k * v) == b * u + (a % b) * v) by (nonlinear_arith)
            requires
                a == b * k + (a % b),
        ;
        (v, u - k * v, g)
    }
}

/// Coprimality does not depend on the order.
pub proof fn lemma_coprime_symmetric(a: nat, b: nat)
    ensures
        coprime(a, b) == coprime(b, a),
{
    if coprime(a, b) {
        assert forall|d: nat| #[trigger] divides(d, b) && divides(d, a) implies d == 1 by {}
    }
    if coprime(b, a) {
        assert forall|d: nat| #[trigger] divides(d, a) && divides(d, b) implies d == 1 by {}
    }
}

/// The greatest common divisor of two numbers, not both zero, is one exactly
/// when they are coprime.
pub proof fn lemma_gcd_one_is_coprime(d: nat, a: nat, b: nat)
    requires
        is_gcd(d, a, b),
        a > 0 || b > 0,
    ensures
        d == 1 <==> coprime(a, b),
{
    if d == 1 {
        assert forall|c: nat| #[trigger] divides(c, a) && divides(c, b) implies c == 1 by {}
    }
}

/// Two numbers that are congruent modulo each of two coprime moduli are
/// congruent modulo the product of the moduli.
pub proof fn lemma_congruent_modulo_product(x: int, y: int, p: nat, q: nat)
    requires
        p > 0,
        q > 0,
        coprime(p, q),
        x % (p as int) == y % (p as int),
        x % (q as int) == y % (q as int),
    ensures
        x % ((p * q) as int) == y % ((p * q) as int),
{
    let d = x - y;
    let (pi, qi) = (p as int, q as int);
    lemma_mod_equivalence(x, y, pi);
    lemma_mod_equivalence(x, y, qi);
    lemma_fundamental_div_mod(d, pi);
    lemma_fundamental_div_mod(d, qi);
    let k = d / pi;
    let l = d / qi;
    assert(d == pi * k && d == qi * l);
    let (u, v, g) = lemma_bezout(p, q);
    assert(g == 1);
    let t = l * u + k * v;
    assert(d == (pi * qi) * t) by (nonlinear_arith)
        requires
            d == pi * k,
            d == qi * l,
            pi * u + qi * v == 1,
            t == l * u + k * v,
    ;
    lemma_mul_strictly_positive(pi, qi);
    lemma_mod_multiples_basic(t, pi * qi);
    lemma_mul_is_commutative(t, pi * qi);
    lemma_mod_equivalence(x, y, pi * qi);
}

/// One step of the extended Euclidean algorithm on coefficients kept below
/// the modulus: if `t * a` is congruent to `r` and `u * a` to `s`, then `v`,
/// which is `t - q * u` reduced, times `a` is congruent to `r - q * s`.
pub proof fn lemma_inverse_step(m: nat, a: nat, t: nat, u: nat, r: nat, s: nat, q: nat, v: nat)
    requires
        m > 0,
        (t * a) % m == r % m,
        (u * a) % m == s % m,
        r >= q * s,
        v as int == (t + m - ((q * u) % m) as int) % (m as int),
    ensures
        (v * a) % m == ((r - q * s) as nat) % m,
{
    let mi = m as int;
    let x: int = t - q * u;
    // v is x reduced modulo m
    lemma_sub_mod_noop_right((t + m) as int, (q * u) as int, mi);
    lemma_mod_add_multiples_vanish(x, mi);
    assert((mi + x) == (t + m) - (q * u));
    assert(v as int == x % mi);
    // v * a is congruent to x * a
    lemma_mul_mod_noop_left(x, a as int, mi);
    assert(((v * a) as int) % mi == (x * a) % mi);
    // x * a = t * a - q * (u * a)
    assert(x * a == t * a - q * (u * a)) by (nonlinear_arith)
        requires
            x == t - q * u,
    ;
    lemma_sub_mod_noop((t * a) as int, (q * (u * a)) as int, mi);
    lemma_mul_mod_noop_right(q as int, (u * a) as int, mi);
    lemma_mul_mod_noop_right(q as int, s as int, mi);
    assert(((q * (u * a)) as int) % mi == ((q * s) as int) % mi);
    lemma_sub_mod_noop(r as int, (q * s) as int, mi);
}

/// A number that is coprime to a positive modulus has an inverse.
pub proof fn lemma_inverse_exists(a: nat, m: nat)
    requires
        m > 0,
        coprime(a, m),
    ensures
        is_inverse_mod(inverse_mod(a, m), a, m),
{
    let mi = m as int;
    let (u, v, g) = lemma_bezout(a, m);
    assert(g == 1);
    let x = (u % mi) as nat;
    lemma_mod_bound(u, mi);
    lemma_mul_mod_noop_right(a as int, u, mi);
    assert(a * u == mi * (-v) + 1) by (nonlinear_arith)
        requires
            a * u + m * v == 1,
            mi == m,
    ;
    lemma_mod_multiples_vanish(-v, 1, mi);
    assert(is_inverse_mod(x, a, m));
}

/// A number has at most one inverse below the modulus.
pub proof fn lemma_inverse_unique(x: nat, y: nat, a: nat, m: nat)
    requires
        is_inverse_mod(x, a, m),
        is_inverse_mod(y, a, m),
    ensures
        x == y,
{
    let mi = m as int;
    if m > 1 {
        lemma_small_mod(1, m);
        lemma_mul_mod_noop_right(x as int, (a * y) as int, mi);
        lemma_mul_mod_noop_right(y as int, (a * x) as int, mi);
        assert(x * (a * y) == y * (a * x)) by (nonlinear_arith);
        assert(x * 1 == x && y * 1 == y);
        lemma_small_mod(x, m);
        lemma_small_mod(y, m);
    }
}

/// An inverse below the modulus is the inverse.
pub proof fn lemma_inverse_mod_is(x: nat, a: nat, m: nat)
    requires
        is_inverse_mod(x, a, m),
    ensures
        inverse_mod(a, m) == x,
{
    lemma_inverse_unique(inverse_mod(a, m), x, a, m);
}

} // verus!
