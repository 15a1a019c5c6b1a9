//! Arithmetic modulo a prime: Euclid's lemma, Fermat's little theorem, the
//! quadratic character of minus one and of two, and from these the residue
//! forms that valid primes give.

use crate::crt::{lemma_product_split, product_except, product_of};
use crate::modular::{coprime, divides, lemma_bezout, lemma_mod_of_mod, lemma_multiple_divides};
use crate::residues::{euler_criterion, joint_residue, residue_form};
use vstd::arithmetic::div_mod::*;
use vstd::arithmetic::mul::*;
use vstd::arithmetic::power::*;
use vstd::prelude::*;

verus! {

/// `p` is a prime number.
pub open spec fn is_prime(p: nat) -> bool {
    p >= 2 && forall|d: nat| #[trigger] divides(d, p) ==> d == 1 || d == p
}

/// The product of the numbers from one to `m`.
pub open spec fn factorial(m: nat) -> nat
    decreases m,
{
    if m == 0 {
        1
    } else {
        m * factorial((m - 1) as nat)
    }
}

/// A prime is coprime to whatever it does not divide.
pub proof fn lemma_prime_coprime(p: nat, x: nat)
    requires
        is_prime(p),
        x % p != 0,
    ensures
        coprime(p, x),
{
    assert forall|d: nat| #[trigger] divides(d, p) && divides(d, x) implies d == 1 by {}
}

/// Euclid's lemma: a prime that divides a product divides a factor.
pub proof fn lemma_euclid(p: nat, x: nat, y: nat)
    requires
        is_prime(p),
        (x * y) % p == 0,
    ensures
        x % p == 0 || y % p == 0,
{
    if x % p != 0 {
        lemma_prime_coprime(p, x);
        let (u, v, g) = lemma_bezout(p, x);
        assert(g == 1);
        let pi = p as int;
        lemma_fundamental_div_mod((x * y) as int, pi);
        let k = ((x * y) / p) as int;
        assert(x * y == pi * k);
        assert(y == (u * y + k * v) * pi) by (nonlinear_arith)
            requires
                pi * u + x * v == 1,
                x * y == pi * k,
                pi == p,
        ;
        lemma_mod_multiples_basic(u * y + k * v, pi);
    }
}

/// Cancellation modulo a prime: a common factor that the prime does not
/// divide can be dropped from a congruence.
pub proof fn lemma_cancel(p: nat, a: nat, x: nat, y: nat)
    requires
        is_prime(p),
        a % p != 0,
        (a * x) % p == (a * y) % p,
    ensures
        x % p == y % p,
    decreases
            (if x >= y {
                0nat
            } else {
                1nat
            }),
{
    let pi = p as int;
    if x >= y {
        let d = (x - y) as nat;
        lemma_mod_equivalence((a * x) as int, (a * y) as int, pi);
        assert(a * x - a * y == a * d) by (nonlinear_arith)
            requires
                d == x - y,
        ;
        lemma_euclid(p, a, d);
        lemma_mod_equivalence(x as int, y as int, pi);
    } else {
        lemma_cancel(p, a, y, x);
    }
}

/// A prime does not divide the factorial of a smaller number.
pub proof fn lemma_factorial_not_divisible(p: nat, m: nat)
    requires
        is_prime(p),
        m < p,
    ensures
        factorial(m) % p != 0,
    decreases m,
{
    if m == 0 {
        lemma_small_mod(1, p);
    } else {
        lemma_factorial_not_divisible(p, (m - 1) as nat);
        lemma_small_mod(m, p);
        if factorial(m) % p == 0 {
            lemma_euclid(p, m, factorial((m - 1) as nat));
        }
    }
}

/// The product of a sequence with one element removed is the product of the
/// others.
pub proof fn lemma_product_remove(s: Seq<nat>, j: int)
    requires
        0 <= j < s.len(),
    ensures
        product_of(s.remove(j)) == product_except(s, j),
        product_of(s) == s[j] * product_of(s.remove(j)),
    decreases s.len(),
{
    lemma_product_split(s, j);
    if j == s.len() - 1 {
        assert(s.remove(j) =~= s.drop_last());
    } else {
        let front = s.drop_last();
        lemma_product_remove(front, j);
        assert(s.remove(j).drop_last() =~= front.remove(j));
        assert(s.remove(j).last() == s.last());
    }
}

/// Every number from one to `m` once, in any order, multiplies to the
/// factorial of `m`; and no sequence of distinct numbers from one to `m` is
/// longer than `m`.
pub proof fn lemma_product_of_permutation(s: Seq<nat>, m: nat)
    requires
        s.no_duplicates(),
        forall|i: int| 0 <= i < s.len() ==> 1 <= #[trigger] s[i] <= m,
    ensures
        s.len() <= m,
        s.len() == m ==> product_of(s) == factorial(m),
    decreases m,
{
    if m == 0 {
        if s.len() > 0 {
            assert(1 <= s[0] <= 0);
        }
    } else if s.contains(m) {
        let j = s.index_of(m);
        let rest = s.remove(j);
        assert forall|i: int| 0 <= i < rest.len() implies 1 <= #[trigger] rest[i] <= m - 1 by {
            if i < j {
                assert(rest[i] == s[i]);
            } else {
                assert(rest[i] == s[i + 1]);
            }
        }
        assert forall|i: int, k: int|
            0 <= i < rest.len() && 0 <= k < rest.len() && i != k implies rest[i] != rest[k] by {
            let i2 = if i < j {
                i
            } else {
                i + 1
            };
            let k2 = if k < j {
                k
            } else {
                k + 1
            };
            assert(rest[i] == s[i2] && rest[k] == s[k2]);
        }
        lemma_product_of_permutation(rest, (m - 1) as nat);
        lemma_product_remove(s, j);
    } else {
        assert forall|i: int| 0 <= i < s.len() implies 1 <= #[trigger] s[i] <= m - 1 by {
            if s[i] == m {
                assert(s.contains(m));
            }
        }
        lemma_product_of_permutation(s, (m - 1) as nat);
    }
}

/// The first `len` multiples of `a`, each reduced modulo `p`.
pub open spec fn multiples(a: nat, p: nat, len: nat) -> Seq<nat> {
    Seq::new(len, |i: int| ((a * (i + 1)) % (p as int)) as nat)
}

/// The reduced multiples of `a` multiply to `a^len * len!`, modulo `p`.
proof fn lemma_product_multiples(a: nat, p: nat, len: nat)
    requires
        p > 0,
    ensures
        product_of(multiples(a, p, len)) % p == (pow(a as int, len) * factorial(len)) % (p as int),
    decreases len,
{
    let pi = p as int;
    if len == 0 {
        lemma_pow0(a as int);
    } else {
        let s = multiples(a, p, len);
        let front = multiples(a, p, (len - 1) as nat);
        lemma_product_multiples(a, p, (len - 1) as nat);
        assert(s.drop_last() =~= front);
        assert(s.last() == (a * len) % p);
        let x = product_of(front) as int;
        let z = pow(a as int, (len - 1) as nat) * factorial((len - 1) as nat);
        lemma_mul_mod_noop_right(x, (a * len) as int, pi);
        lemma_mul_mod_noop_left(x, (a * len) as int, pi);
        lemma_mul_mod_noop_left(z, (a * len) as int, pi);
        assert((product_of(s) as int) % pi == (z * (a * len)) % pi);
        lemma_pow_adds(a as int, 1, (len - 1) as nat);
        lemma_pow1(a as int);
        let w = pow(a as int, (len - 1) as nat);
        let f = factorial((len - 1) as nat);
        assert(z * (a * len) == (a * w) * (len * f)) by (nonlinear_arith)
            requires
                z == w * f,
        ;
    }
}

/// Fermat's little theorem: a number that a prime `p` does not divide,
/// raised to `p - 1`, is congruent to one.
pub proof fn lemma_fermat(a: nat, p: nat)
    requires
        is_prime(p),
        a % p != 0,
    ensures
        pow(a as int, (p - 1) as nat) % (p as int) == 1,
{
    let pi = p as int;
    let m = (p - 1) as nat;
    let s = multiples(a, p, m);
    assert forall|i: int| 0 <= i < s.len() implies 1 <= #[trigger] s[i] <= m by {
        lemma_mod_bound(a * (i + 1), pi);
        if s[i] == 0 {
            lemma_euclid(p, a, (i + 1) as nat);
            lemma_small_mod((i + 1) as nat, p);
        }
    }
    assert forall|i: int, j: int|
        0 <= i < s.len() && 0 <= j < s.len() && i != j implies s[i] != s[j] by {
        if s[i] == s[j] {
            lemma_cancel(p, a, (i + 1) as nat, (j + 1) as nat);
            lemma_small_mod((i + 1) as nat, p);
            lemma_small_mod((j + 1) as nat, p);
        }
    }
    lemma_product_of_permutation(s, m);
    lemma_product_multiples(a, p, m);
    lemma_factorial_not_divisible(p, m);
    if a == 0 {
        lemma_small_mod(0, p);
    }
    lemma_pow_positive(a as int, m);
    let w = pow(a as int, m) as nat;
    let f = factorial(m);
    lemma_mul_is_commutative(w as int, f as int);
    assert(f * 1 == f);
    lemma_cancel(p, f, 1, w);
    lemma_small_mod(1, p);
}

/// The power that Euler's criterion looks at: `x^((p-1)/2) mod p`.
pub open spec fn euler_power(x: int, p: nat) -> int {
    pow(x, ((p - 1) / 2) as nat) % (p as int)
}

/// Congruent numbers have the same Euler power.
pub proof fn lemma_euler_power_congruent(x: int, y: int, p: nat)
    requires
        p > 0,
        x % (p as int) == y % (p as int),
    ensures
        euler_power(x, p) == euler_power(y, p),
{
    let h = ((p - 1) / 2) as nat;
    lemma_pow_mod_noop(x, h, p as int);
    lemma_pow_mod_noop(y, h, p as int);
}

/// The Euler power of a product is the product of the Euler powers,
/// reduced.
pub proof fn lemma_euler_power_product(x: int, y: int, p: nat)
    requires
        p > 0,
    ensures
        euler_power(x * y, p) == (euler_power(x, p) * euler_power(y, p)) % (p as int),
{
    let h = ((p - 1) / 2) as nat;
    lemma_pow_distributes(x, y, h);
    lemma_mul_mod_noop(pow(x, h), pow(y, h), p as int);
}

/// Modulo an odd prime, the Euler power of a number that the prime does not
/// divide is one or minus one.
pub proof fn lemma_euler_power_is_sign(a: nat, p: nat)
    requires
        is_prime(p),
        p % 2 == 1,
        a % p != 0,
    ensures
        euler_power(a as int, p) == 1 || euler_power(a as int, p) == p - 1,
{
    let pi = p as int;
    let h = ((p - 1) / 2) as nat;
    let w = pow(a as int, h);
    let s = euler_power(a as int, p);
    lemma_mod_bound(w, pi);
    lemma_fermat(a, p);
    lemma_pow_adds(a as int, h, h);
    assert(h + h == p - 1);
    lemma_mul_mod_noop(w, w, pi);
    assert((s * s) % pi == 1);
    if s == 0 {
        lemma_small_mod(0, p);
        assert(s * s == 0);
    } else {
        let x = (s - 1) as nat;
        let y = (s + 1) as nat;
        assert(x * y == s * s - 1) by (nonlinear_arith)
            requires
                x == s - 1,
                y == s + 1,
        ;
        lemma_small_mod(1, p);
        lemma_mod_equivalence(s * s, 1, pi);
        lemma_euclid(p, x, y);
        if x % p == 0 {
            lemma_small_mod(x, p);
        } else {
            if y < p {
                lemma_small_mod(y, p);
            }
        }
    }
}

/// A power of minus one is one for an even exponent and minus one for an
/// odd exponent.
pub proof fn lemma_pow_minus_one(e: nat)
    ensures
        pow(-1, e) == if e % 2 == 0 {
            1int
        } else {
            -1int
        },
    decreases e,
{
    if e == 0 {
        lemma_pow0(-1);
    } else {
        lemma_pow_minus_one((e - 1) as nat);
        lemma_pow_adds(-1, 1, (e - 1) as nat);
        lemma_pow1(-1);
    }
}

/// Modulo a number that is three modulo four, the Euler power of minus one
/// is minus one.
pub proof fn lemma_euler_power_minus_one(p: nat)
    requires
        p % 4 == 3,
    ensures
        euler_power(-1, p) == p - 1,
{
    let h = ((p - 1) / 2) as nat;
    lemma_pow_minus_one(h);
    lemma_mod_multiples_vanish(1, -1, p as int);
    lemma_small_mod((p - 1) as nat, p);
}

/// The doubles of the numbers from one to `len`, each replaced by its
/// negative modulo `p` where it exceeds `(p - 1) / 2`.
pub open spec fn folded_doubles(p: nat, len: nat) -> Seq<nat> {
    Seq::new(
        len,
        |i: int|
            if 2 * (i + 1) <= (p - 1) / 2 {
                (2 * (i + 1)) as nat
            } else {
                (p - 2 * (i + 1)) as nat
            },
    )
}

/// How many of the numbers from one to `len` have a double that exceeds
/// `(p - 1) / 2`.
pub open spec fn folds(p: nat, len: nat) -> nat {
    let quarter = ((p - 1) / 2) / 2;
    if len <= quarter {
        0
    } else {
        (len - quarter) as nat
    }
}

/// The folded doubles multiply to `(-1)^folds * 2^len * len!`, modulo `p`.
proof fn lemma_product_folded_doubles(p: nat, len: nat)
    requires
        p % 2 == 1,
        len <= (p - 1) / 2,
    ensures
        product_of(folded_doubles(p, len)) % p == (pow(-1, folds(p, len)) * pow(2, len)
            * factorial(len)) % (p as int),
    decreases len,
{
    let pi = p as int;
    if len == 0 {
        lemma_pow0(-1);
        lemma_pow0(2);
    } else {
        let prev = (len - 1) as nat;
        let s = folded_doubles(p, len);
        let front = folded_doubles(p, prev);
        lemma_product_folded_doubles(p, prev);
        assert(s.drop_last() =~= front);
        let x = product_of(front) as int;
        let sign = pow(-1, folds(p, prev));
        let w = pow(2, prev);
        let f = factorial(prev) as int;
        let z = sign * w * f;
        let last = s.last() as int;
        assert(product_of(s) == x * last);
        lemma_mul_mod_noop_left(x, last, pi);
        lemma_mul_mod_noop_left(z, last, pi);
        assert((product_of(s) as int) % pi == (z * last) % pi);
        lemma_pow_adds(2, 1, prev);
        lemma_pow1(2);
        assert(pow(2, len) == 2 * w);
        assert(factorial(len) == len * f);
        if 2 * len <= (p - 1) / 2 {
            assert(last == 2 * len);
            assert(folds(p, len) == folds(p, prev));
            assert(z * last == sign * (2 * w) * (len * f)) by (nonlinear_arith)
                requires
                    z == sign * w * f,
                    last == 2 * len,
            ;
        } else {
            assert(last == p - 2 * len);
            assert(folds(p, len) == folds(p, prev) + 1);
            lemma_pow_adds(-1, 1, folds(p, prev));
            lemma_pow1(-1);
            let target = pow(-1, folds(p, len)) * pow(2, len) * factorial(len);
            assert(z * last == pi * z + target) by (nonlinear_arith)
                requires
                    z == sign * w * f,
                    last == pi - 2 * len,
                    target == ((-1) * sign) * (2 * w) * (len * f),
            ;
            lemma_mod_multiples_vanish(z, target, pi);
        }
    }
}

/// The quadratic character of two: modulo a prime that is three modulo
/// eight the Euler power of two is minus one, and modulo a prime that is
/// seven modulo eight it is one.
pub proof fn lemma_euler_power_two(p: nat)
    requires
        is_prime(p),
        p % 8 == 3 || p % 8 == 7,
    ensures
        p % 8 == 3 ==> euler_power(2, p) == p - 1,
        p % 8 == 7 ==> euler_power(2, p) == 1,
{
    let pi = p as int;
    let h = ((p - 1) / 2) as nat;
    let s = folded_doubles(p, h);
    assert forall|i: int| 0 <= i < s.len() implies 1 <= #[trigger] s[i] <= h by {}
    assert forall|i: int, j: int|
        0 <= i < s.len() && 0 <= j < s.len() && i != j implies s[i] != s[j] by {}
    lemma_product_of_permutation(s, h);
    lemma_product_folded_doubles(p, h);
    lemma_factorial_not_divisible(p, h);
    let f = factorial(h);
    let c = folds(p, h);
    lemma_pow_minus_one(c);
    lemma_pow_positive(2, h);
    let w = pow(2, h) as nat;
    lemma_mod_bound(w as int, pi);
    if p % 8 == 7 {
        assert(c % 2 == 0);
        assert(1 * pow(2, h) * f == f * w) by (nonlinear_arith)
            requires
                w == pow(2, h),
        ;
        assert(f * 1 == f);
        lemma_cancel(p, f, 1, w);
        lemma_small_mod(1, p);
    } else {
        assert(c % 2 == 1);
        assert((f as int) % pi == ((-1) * pow(2, h) * f) % pi);
        lemma_mod_equivalence(f as int, (-1) * pow(2, h) * f, pi);
        assert(f - (-1) * pow(2, h) * f == (w + 1) * f) by (nonlinear_arith)
            requires
                w == pow(2, h),
        ;
        lemma_euclid(p, w + 1, f);
        // w + 1 is a multiple of p, so w is congruent to p - 1
        lemma_mod_equivalence(w as int, -1, pi);
        lemma_mod_multiples_vanish(1, -1, pi);
        lemma_small_mod((p - 1) as nat, p);
    }
}

/// Two different primes are coprime.
pub proof fn lemma_distinct_primes_coprime(p: nat, q: nat)
    requires
        is_prime(p),
        is_prime(q),
        p != q,
    ensures
        coprime(p, q),
{
    if q % p == 0 {
        assert(divides(p, q));
    }
    lemma_prime_coprime(p, q);
}

/// The product of two signs modulo `m`, each one or `m - 1`: one when they
/// agree, `m - 1` when they differ.
proof fn lemma_sign_product(x: int, y: int, m: nat)
    requires
        m > 2,
        x == 1 || x == m - 1,
        y == 1 || y == m - 1,
    ensures
        (x * y) % (m as int) == if x == y {
            1int
        } else {
            m - 1
        },
{
    let mi = m as int;
    lemma_small_mod(1, m);
    lemma_small_mod((m - 1) as nat, m);
    if x == 1 {
        assert(x * y == y);
    } else if y == 1 {
        assert(x * y == x);
    } else {
        assert(x * y == mi * (mi - 2) + 1) by (nonlinear_arith)
            requires
                x == mi - 1,
                y == mi - 1,
        ;
        lemma_mod_multiples_vanish(mi - 2, 1, mi);
    }
}

/// Which of the four forms of `a` pass Euler's criterion modulo a prime
/// factor `m` of `n = m * k` that is three modulo four.  Negation always
/// changes the answer; doubling changes it exactly when two fails the
/// criterion.
pub proof fn lemma_forms_modulo_factor(a: nat, m: nat, k: nat)
    requires
        is_prime(m),
        m % 4 == 3,
        a % m != 0,
        a <= m * k,
    ensures
        euler_criterion((m * k - a) as nat, m) == !euler_criterion(a, m),
        euler_criterion((2 * a) % (m * k), m) == (euler_criterion(a, m) == euler_criterion(2, m)),
        euler_criterion((2 * ((m * k - a) as nat)) % (m * k), m) == (euler_criterion(a, m)
            != euler_criterion(2, m)),
{
    let mi = m as int;
    let n = m * k;
    let neg = (n - a) as nat;
    let ai = a as int;
    if a == 0 {
        lemma_small_mod(0, m);
    }
    assert(k > 0) by (nonlinear_arith)
        requires
            a <= m * k,
            a > 0,
    ;
    lemma_mul_strictly_positive(mi, k as int);
    lemma_multiple_divides(m, k);
    lemma_small_mod(2, m);
    lemma_euler_power_is_sign(a, m);
    lemma_euler_power_is_sign(2, m);
    lemma_euler_power_minus_one(m);
    let s = euler_power(ai, m);
    let t = euler_power(2, m);
    // n - a is congruent to -a
    lemma_mod_multiples_vanish(k as int, -ai, mi);
    assert((neg as int) == mi * k + (-ai));
    lemma_euler_power_congruent(neg as int, -ai, m);
    lemma_euler_power_product(-1, ai, m);
    assert(-1 * ai == -ai);
    lemma_sign_product(mi - 1, s, m);
    // 2a reduced modulo n is congruent to 2a
    lemma_mod_of_mod(2 * a, m, n);
    lemma_euler_power_congruent(((2 * a) % n) as int, (2 * a) as int, m);
    lemma_euler_power_product(2, ai, m);
    lemma_sign_product(t, s, m);
    // 2(n - a) reduced modulo n is congruent to 2(n - a)
    lemma_mod_of_mod(2 * neg, m, n);
    lemma_euler_power_congruent(((2 * neg) % n) as int, (2 * neg) as int, m);
    lemma_euler_power_product(2, neg as int, m);
    lemma_sign_product(t, euler_power(neg as int, m), m);
}

/// One if `c` passes Euler's criterion modulo both `p` and `q`, else zero.
pub open spec fn joint_count(c: nat, p: nat, q: nat) -> nat {
    if joint_residue(c, p, q) {
        1
    } else {
        0
    }
}

/// How many of the four forms of `a` pass Euler's criterion modulo both `p`
/// and `q`.
pub open spec fn joint_forms(a: nat, p: nat, q: nat) -> nat {
    let n = p * q;
    let neg = (n - a) as nat;
    joint_count(a, p, q) + joint_count(neg, p, q) + joint_count((2 * a) % n, p, q) + joint_count(
        (2 * neg) % n,
        p,
        q,
    )
}

/// With a prime `p` that is three and a prime `q` that is seven modulo
/// eight, exactly one of the four forms of a number up to `p * q` that
/// neither prime divides passes Euler's criterion modulo both.
pub proof fn lemma_exactly_one_form(a: nat, p: nat, q: nat)
    requires
        is_prime(p),
        is_prime(q),
        p % 8 == 3,
        q % 8 == 7,
        a <= p * q,
        a % p != 0,
        a % q != 0,
    ensures
        joint_forms(a, p, q) == 1,
{
    lemma_forms_modulo_factor(a, p, q);
    lemma_mul_is_commutative(p as int, q as int);
    lemma_forms_modulo_factor(a, q, p);
    lemma_euler_power_two(p);
    lemma_euler_power_two(q);
}

/// With a prime `p` that is three and a prime `q` that is seven modulo
/// eight, every number up to `p * q` that neither prime divides has a
/// residue form.
pub proof fn lemma_residue_form_exists(a: nat, p: nat, q: nat)
    requires
        is_prime(p),
        is_prime(q),
        p % 8 == 3,
        q % 8 == 7,
        a <= p * q,
        a % p != 0,
        a % q != 0,
    ensures
        residue_form(a, p, q) is Some,
{
    lemma_exactly_one_form(a, p, q);
}

} // verus!
