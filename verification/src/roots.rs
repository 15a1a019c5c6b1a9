//! Roots of polynomials modulo a prime.  A polynomial of degree `d` has at
//! most `d` roots, from which it follows that not every number passes
//! Euler's criterion.

use crate::primes::{is_prime, lemma_euclid};
use crate::residues::euler_criterion;
use vstd::arithmetic::div_mod::*;
use vstd::arithmetic::power::*;
use vstd::prelude::*;

verus! {

/// The value at `x` of the polynomial with the coefficients `a`, leading
/// coefficient first.
pub open spec fn eval(a: Seq<int>, x: int) -> int
    decreases a.len(),
{
    if a.len() == 0 {
        0
    } else {
        eval(a.drop_last(), x) * x + a.last()
    }
}

/// A polynomial with a single coefficient is constant.
proof fn lemma_eval_constant(a: Seq<int>, x: int)
    requires
        a.len() == 1,
    ensures
        eval(a, x) == a[0],
{
    assert(a.drop_last().len() == 0);
    assert(eval(a.drop_last(), x) == 0);
}

/// The quotient of the polynomial `a` by `x - r`: its coefficients are the
/// values at `r` of the leading parts of `a`.
pub open spec fn quotient_by_root(a: Seq<int>, r: int) -> Seq<int> {
    Seq::new((a.len() - 1) as nat, |i: int| eval(a.take(i + 1), r))
}

/// Division with remainder by `x - r`: the polynomial is `x - r` times the
/// quotient, plus its value at `r`.
pub proof fn lemma_division_by_root(a: Seq<int>, r: int, x: int)
    requires
        a.len() >= 1,
    ensures
        eval(a, x) == (x - r) * eval(quotient_by_root(a, r), x) + eval(a, r),
    decreases a.len(),
{
    let g = quotient_by_root(a, r);
    if a.len() == 1 {
        assert(g.len() == 0);
        lemma_eval_constant(a, x);
        lemma_eval_constant(a, r);
    } else {
        let front = a.drop_last();
        let gf = quotient_by_root(front, r);
        lemma_division_by_root(front, r, x);
        assert(g.drop_last() =~= gf) by {
            assert forall|i: int| 0 <= i < gf.len() implies g.drop_last()[i] == gf[i] by {
                assert(a.take(i + 1) =~= front.take(i + 1));
            }
        }
        assert(a.take(a.len() - 1) =~= front);
        assert(g.last() == eval(front, r));
        let (ef, eg, er) = (eval(front, x), eval(gf, x), eval(front, r));
        assert(eval(g, x) == eg * x + er);
        assert(ef * x + a.last() == (x - r) * (eg * x + er) + (er * r + a.last()))
            by (nonlinear_arith)
            requires
                ef == (x - r) * eg + er,
        ;
    }
}

/// Euclid's lemma for integers of either sign.
pub proof fn lemma_euclid_int(p: nat, x: int, y: int)
    requires
        is_prime(p),
        (x * y) % (p as int) == 0,
    ensures
        x % (p as int) == 0 || y % (p as int) == 0,
{
    let pi = p as int;
    lemma_mul_mod_noop(x, y, pi);
    lemma_mod_bound(x, pi);
    lemma_mod_bound(y, pi);
    lemma_euclid(p, (x % pi) as nat, (y % pi) as nat);
    lemma_mod_twice(x, pi);
    lemma_mod_twice(y, pi);
}

/// A polynomial whose leading coefficient a prime does not divide has, among
/// numbers that are pairwise incongruent modulo the prime, no more roots
/// than its degree.
pub proof fn lemma_root_bound(a: Seq<int>, p: nat, roots: Seq<int>)
    requires
        is_prime(p),
        a.len() >= 1,
        a[0] % (p as int) != 0,
        forall|i: int, j: int|
            0 <= i < j < roots.len() ==> roots[i] % (p as int) != roots[j] % (p as int),
        forall|i: int| 0 <= i < roots.len() ==> eval(a, #[trigger] roots[i]) % (p as int) == 0,
    ensures
        roots.len() <= a.len() - 1,
    decreases a.len(),
{
    let pi = p as int;
    if roots.len() > 0 {
        let r = roots.last();
        if a.len() == 1 {
            lemma_eval_constant(a, r);
            assert(eval(a, roots[roots.len() - 1]) == a[0]);
        } else {
            let g = quotient_by_root(a, r);
            let rest = roots.drop_last();
            lemma_eval_constant(a.take(1), r);
            assert(g[0] == a[0]);
            assert(eval(a, roots[roots.len() - 1]) % pi == 0);
            assert forall|i: int| 0 <= i < rest.len() implies eval(g, #[trigger] rest[i]) % pi
                == 0 by {
                let x = rest[i];
                assert(x == roots[i]);
                lemma_division_by_root(a, r, x);
                let v = (x - r) * eval(g, x);
                lemma_add_mod_noop(v, eval(a, r), pi);
                lemma_mod_twice(v, pi);
                assert(v % pi == 0);
                lemma_euclid_int(p, x - r, eval(g, x));
                lemma_mod_equivalence(x, r, pi);
            }
            lemma_root_bound(g, p, rest);
        }
    }
}

/// The coefficients of the polynomial `x^h - 1`.
pub open spec fn power_minus_one(h: nat) -> Seq<int> {
    Seq::new(
        h + 1,
        |i: int|
            if i == 0 {
                1int
            } else if i == h {
                -1int
            } else {
                0int
            },
    )
}

/// The leading `k` coefficients of `x^h - 1` are those of `x^(k-1)`.
proof fn lemma_eval_leading_part(h: nat, k: nat, x: int)
    requires
        1 <= k <= h,
    ensures
        eval(power_minus_one(h).take(k as int), x) == pow(x, (k - 1) as nat),
    decreases k,
{
    let a = power_minus_one(h).take(k as int);
    if k == 1 {
        lemma_eval_constant(a, x);
        lemma_pow0(x);
    } else {
        lemma_eval_leading_part(h, (k - 1) as nat, x);
        assert(a.drop_last() =~= power_minus_one(h).take(k - 1));
        lemma_pow_adds(x, (k - 2) as nat, 1);
        lemma_pow1(x);
    }
}

/// The value of `x^h - 1`.
pub proof fn lemma_eval_power_minus_one(h: nat, x: int)
    requires
        h >= 1,
    ensures
        eval(power_minus_one(h), x) == pow(x, h) - 1,
{
    let a = power_minus_one(h);
    lemma_eval_leading_part(h, h, x);
    assert(a.drop_last() =~= a.take(h as int));
    lemma_pow_adds(x, (h - 1) as nat, 1);
    lemma_pow1(x);
}

/// Modulo an odd prime some number between two and `p - 1` fails Euler's
/// criterion.
pub proof fn lemma_nonresidue_exists(p: nat) -> (z: nat)
    requires
        is_prime(p),
        p >= 3,
    ensures
        2 <= z < p,
        !euler_criterion(z, p),
{
    let pi = p as int;
    let h = ((p - 1) / 2) as nat;
    if forall|z: nat| 1 <= z < p ==> #[trigger] euler_criterion(z, p) {
        let a = power_minus_one(h);
        let roots = Seq::new((p - 1) as nat, |i: int| i + 1);
        assert forall|i: int, j: int| 0 <= i < j < roots.len() implies roots[i] % pi
            != roots[j] % pi by {
            lemma_small_mod((i + 1) as nat, p);
            lemma_small_mod((j + 1) as nat, p);
        }
        assert forall|i: int| 0 <= i < roots.len() implies eval(a, #[trigger] roots[i]) % pi
            == 0 by {
            let z = (i + 1) as nat;
            assert(euler_criterion(z, p));
            lemma_eval_power_minus_one(h, z as int);
            lemma_small_mod(1, p);
            lemma_mod_equivalence(pow(z as int, h), 1, pi);
        }
        lemma_small_mod(1, p);
        lemma_root_bound(a, p, roots);
        assert(false);
    }
    let z = choose|z: nat| 1 <= z < p && !#[trigger] euler_criterion(z, p);
    if z == 1 {
        lemma1_pow(h);
        lemma_small_mod(1, p);
    }
    z
}

} // verus!
