//! Modular arithmetic on big naturals: residue test, inverse, Chinese
//! remainder combination and square roots.

use crate::bignum::{
    bit_length, difference, equal, from_u64, less, modpow, product, quotient, remainder,
    shift_left, sum, value,
};
use crate::crt::{
    crt_solvable, is_crt_solution, lemma_cofactor, lemma_crt_other, lemma_crt_same,
    lemma_product_positive, product_of,
};
use crate::errors::RabinWilliamsError;
use crate::modular::{
    coprime, divides, is_inverse_mod, lemma_divides_multiple, lemma_divides_remainder,
    lemma_inverse_step,
};
use crate::primes::is_prime;
use crate::residues::{
    euler_criterion, is_sqrt_mod, joint_residue, lemma_modulus_is_no_residue,
    lemma_sqrt_three_mod_four, residue_form,
};
use crate::roots::lemma_nonresidue_exists;
use crate::tonelli::{
    lemma_squared_once_more, lemma_squared_zero_times, lemma_tonelli_orders_round,
    lemma_tonelli_orders_start, lemma_tonelli_start, lemma_tonelli_step, squared_times,
};
use num_bigint::BigUint;
use vstd::arithmetic::div_mod::*;
use vstd::arithmetic::mul::*;
use vstd::arithmetic::power::*;
use vstd::arithmetic::power2::*;
use vstd::prelude::*;

verus! {

/// Euler's criterion: whether `a^((p-1)/2) mod p` is one.  For a prime `p`
/// this says that `a` is a non-zero square modulo `p`.  The answer is `false`
/// for a modulus below two.
pub fn is_quadratic_residue(a: &BigUint, p: &BigUint) -> (r: bool)
    ensures
        r == euler_criterion(value(a), value(p)),
{
    let one = from_u64(1);
    if !less(&one, p) {
        return false;
    }
    let two = from_u64(2);
    let exp = quotient(&difference(p, &one), &two);
    equal(&modpow(a, &exp, p), &one)
}

/// The inverse of `a` modulo `m` by the extended Euclidean algorithm.
///
/// There is one exactly when `m` is not zero and `a` and `m` are coprime; it
/// is then the only `x` below `m` with `a * x` congruent to one.
pub fn mod_inverse(a: &BigUint, m: &BigUint) -> (r: Option<BigUint>)
    ensures
        match r {
            Some(x) => is_inverse_mod(value(&x), value(a), value(m)) && coprime(value(a), value(m)),
            None => value(m) == 0 || !coprime(value(a), value(m)),
        },
{
    let zero = from_u64(0);
    if equal(m, &zero) {
        return None;
    }
    let one = from_u64(1);
    let mut t = from_u64(0);
    let mut newt = remainder(&one, m);
    let mut r = m.clone();
    let mut newr = a.clone();
    proof {
        lemma_mul_mod_noop_left(1, value(a) as int, value(m) as int);
        assert(0 * value(a) == 0) by (nonlinear_arith);
        lemma_mod_self_0(value(m) as int);
        lemma_small_mod(0, value(m));
    }
    while !equal(&newr, &zero)
        invariant
            value(&zero) == 0,
            value(m) > 0,
            value(&t) < value(m),
            value(&newt) < value(m),
            (value(&t) * value(a)) % value(m) == value(&r) % value(m),
            (value(&newt) * value(a)) % value(m) == value(&newr) % value(m),
            forall|d: nat|
                (#[trigger] divides(d, value(&r)) && divides(d, value(&newr))) <==> (divides(
                    d,
                    value(m),
                ) && divides(d, value(a))),
        decreases value(&newr),
    {
        let q = quotient(&r, &newr);
        let qt = remainder(&product(&q, &newt), m);
        let next_t = remainder(&difference(&sum(&t, m), &qt), m);
        let next_r = remainder(&r, &newr);
        proof {
            let vm = value(m);
            let (vr, vs) = (value(&r), value(&newr));
            lemma_fundamental_div_mod(vr as int, vs as int);
            lemma_mul_is_commutative(vs as int, value(&q) as int);
            assert(vr - value(&q) * vs == vr % vs);
            lemma_mod_bound((value(&q) * value(&newt)) as int, vm as int);
            lemma_inverse_step(
                vm,
                value(a),
                value(&t),
                value(&newt),
                vr,
                vs,
                value(&q),
                value(&next_t),
            );
            assert forall|d: nat|
                (#[trigger] divides(d, vs) && divides(d, vr % vs)) <==> (divides(d, vm) && divides(
                    d,
                    value(a),
                )) by {
                if d > 0 {
                    lemma_divides_remainder(d, vr, vs);
                    assert((divides(d, vr) && divides(d, vs)) <==> (divides(d, vm) && divides(
                        d,
                        value(a),
                    )));
                }
            }
        }
        t = newt;
        newt = next_t;
        r = newr;
        newr = next_r;
    }
    proof {
        let vr = value(&r);
        // every positive number divides zero
        assert forall|d: nat| d > 0 implies #[trigger] divides(d, 0) by {
            lemma_small_mod(0, d);
        }
        if vr == 0 {
            assert(divides(value(m) + 1, vr) && divides(value(m) + 1, 0));
            lemma_small_mod(value(m), value(m) + 1);
            assert(false);
        }
        lemma_mod_self_0(vr as int);
        assert(divides(vr, vr) && divides(vr, 0));
        if vr == 1 {
            assert forall|d: nat| #[trigger]
                divides(d, value(a)) && divides(d, value(m)) implies d == 1 by {
                assert(divides(d, vr) && divides(d, 0));
                if d > 1 {
                    lemma_small_mod(1, d);
                }
            }
            lemma_mul_is_commutative(value(&t) as int, value(a) as int);
        }
    }
    if less(&one, &r) {
        return None;
    }
    Some(t)
}

/// The numbers that a sequence of big naturals holds.
pub open spec fn values(s: Seq<BigUint>) -> Seq<nat> {
    Seq::new(s.len(), |i: int| value(&s[i]))
}

/// The product of all moduli.
fn product_of_all(moduli: &[BigUint]) -> (r: BigUint)
    ensures
        value(&r) == product_of(values(moduli@)),
{
    let mut prod = from_u64(1);
    let mut i: usize = 0;
    while i < moduli.len()
        invariant
            i <= moduli.len(),
            value(&prod) == product_of(values(moduli@).take(i as int)),
        decreases moduli.len() - i,
    {
        proof {
            let ms = values(moduli@);
            assert(ms.take(i + 1).drop_last() =~= ms.take(i as int));
        }
        prod = product(&prod, &moduli[i]);
        i = i + 1;
    }
    proof {
        let ms = values(moduli@);
        assert(ms.take(i as int) =~= ms);
    }
    prod
}

/// Combines remainders modulo several moduli into the one number below the
/// product of the moduli that leaves each of them.
///
/// Fails with `ComputationError` when the two slices differ in length, when
/// they are empty, and when some modulus is zero or shares a factor with the
/// product of the others.
pub fn chinese_remainder_theorem(remainders: &[BigUint], moduli: &[BigUint]) -> (r: Result<
    BigUint,
    RabinWilliamsError,
>)
    ensures
        match r {
            Ok(x) => moduli.len() > 0 && crt_solvable(values(moduli@)) && is_crt_solution(
                value(&x),
                values(remainders@),
                values(moduli@),
            ),
            Err(e) => e == RabinWilliamsError::ComputationError && (remainders.len()
                != moduli.len() || moduli.len() == 0 || !crt_solvable(values(moduli@))),
        },
{
    if remainders.len() != moduli.len() || remainders.len() == 0 {
        return Err(RabinWilliamsError::ComputationError);
    }
    let ghost rs = values(remainders@);
    let ghost ms = values(moduli@);
    let zero = from_u64(0);
    let prod = product_of_all(moduli);
    proof {
        lemma_product_positive(ms);
    }
    if equal(&prod, &zero) {
        return Err(RabinWilliamsError::ComputationError);
    }
    let mut acc = from_u64(0);
    let mut i: usize = 0;
    while i < moduli.len()
        invariant
            i <= moduli.len(),
            remainders.len() == moduli.len(),
            rs == values(remainders@),
            ms == values(moduli@),
            value(&prod) == product_of(ms),
            product_of(ms) > 0,
            value(&acc) < value(&prod),
            forall|k: int|
                0 <= k < ms.len() ==> value(&acc) % #[trigger] ms[k] == (if k < i {
                    rs[k] % ms[k]
                } else {
                    0
                }),
            forall|k: int|
                0 <= k < i ==> #[trigger] ms[k] > 0 && coprime(product_of(ms) / ms[k], ms[k]),
        decreases moduli.len() - i,
    {
        let ghost n = value(&prod);
        proof {
            lemma_cofactor(ms, i as int, i as int);
        }
        let p = quotient(&prod, &moduli[i]);
        let inv = match mod_inverse(&p, &moduli[i]) {
            Some(inv) => inv,
            None => {
                return Err(RabinWilliamsError::ComputationError);
            },
        };
        let scaled = remainder(&product(&remainders[i], &p), &prod);
        let term = remainder(&remainder(&product(&scaled, &inv), &prod), &prod);
        let next = remainder(&sum(&acc, &term), &prod);
        proof {
            let (vr, vp, vi) = (rs[i as int], value(&p), value(&inv));
            let t = vr * vp * vi;
            lemma_mul_mod_noop_left((vr * vp) as int, vi as int, n as int);
            lemma_mod_twice(t as int, n as int);
            assert(value(&term) == t % n);
            lemma_mod_bound((value(&acc) + value(&term)) as int, n as int);
            assert forall|k: int| 0 <= k < ms.len() implies value(&next) % #[trigger] ms[k] == (
            if k < i + 1 {
                rs[k] % ms[k]
            } else {
                0
            }) by {
                lemma_cofactor(ms, k, i as int);
                if k == i {
                    lemma_crt_same(value(&acc), vr, vp, vi, ms[k], n);
                } else {
                    lemma_cofactor(ms, i as int, k);
                    lemma_divides_multiple(ms[k], vp, vr);
                    lemma_divides_multiple(ms[k], vr * vp, vi);
                    lemma_crt_other(value(&acc), t, ms[k], n);
                }
            }
        }
        acc = next;
        i = i + 1;
    }
    Ok(acc)
}

/// A square root of `a` modulo `p`, by the Tonelli-Shanks algorithm.
///
/// A modulus below two is refused with `InvalidPrime`, and a number that
/// fails Euler's criterion with `SquareRootModPrimeFailed`.  Whatever is
/// returned is a square root below `p`.  One is always found for a number
/// that passes Euler's criterion when `p` is prime, and also when `p` leaves
/// three modulo four; for other moduli the search gives up with
/// `SquareRootModPrimeFailed` when the iteration does not close.
pub fn mod_sqrt(a: &BigUint, p: &BigUint) -> (r: Result<BigUint, RabinWilliamsError>)
    ensures
        match r {
            Ok(x) => euler_criterion(value(a), value(p)) && is_sqrt_mod(
                value(&x),
                value(a),
                value(p),
            ),
            Err(e) => if value(p) <= 1 {
                e == RabinWilliamsError::InvalidPrime
            } else {
                &&& e == RabinWilliamsError::SquareRootModPrimeFailed
                &&& euler_criterion(value(a), value(p)) ==> value(p) != 2 && value(p) % 4 != 3
                    && !is_prime(value(p))
            },
        },
{
    let zero = from_u64(0);
    let one = from_u64(1);
    let two = from_u64(2);
    if !less(&one, p) {
        return Err(RabinWilliamsError::InvalidPrime);
    }
    if !is_quadratic_residue(a, p) {
        return Err(RabinWilliamsError::SquareRootModPrimeFailed);
    }
    let ghost va = value(a);
    let ghost vp = value(p);
    if equal(p, &two) {
        let x = remainder(a, p);
        proof {
            let y = va % 2;
            assert(y * y == y) by (nonlinear_arith)
                requires
                    y == 0 || y == 1,
            ;
        }
        return Ok(x);
    }
    let three = from_u64(3);
    let four = from_u64(4);
    if equal(&remainder(p, &four), &three) {
        let exp = quotient(&sum(p, &one), &four);
        proof {
            lemma_sqrt_three_mod_four(va, vp);
        }
        return Ok(modpow(a, &exp, p));
    }
    // split p - 1 into an odd part and a power of two
    let bits = bit_length(p);
    let mut q = difference(p, &one);
    let mut s: u64 = 0;
    proof {
        lemma2_to64();
    }
    while s < bits && equal(&remainder(&q, &two), &zero)
        invariant
            value(&zero) == 0,
            value(&two) == 2,
            vp == value(p),
            vp >= 3,
            value(&q) > 0,
            value(&q) * pow2(s as nat) == vp - 1,
            vp < pow2(bits as nat),
        decreases value(&q),
    {
        proof {
            let vq = value(&q);
            lemma_pow2_unfold((s + 1) as nat);
            assert((vq / 2) * (2 * pow2(s as nat)) == vq * pow2(s as nat)) by (nonlinear_arith)
                requires
                    vq % 2 == 0,
            ;
        }
        s = s + 1;
        q = quotient(&q, &two);
    }
    proof {
        // the power of two is below p, so the loop ended on an odd part
        lemma_pow2_pos(s as nat);
        assert(pow2(s as nat) <= vp - 1) by (nonlinear_arith)
            requires
                value(&q) * pow2(s as nat) == vp - 1,
                value(&q) >= 1,
                pow2(s as nat) > 0,
        ;
        if s > bits {
            lemma_pow2_strictly_increases(bits as nat, s as nat);
        }
        assert(value(&q) % 2 == 1);
        if s == 0 {
            assert(value(&q) * 1 == value(&q));
        }
    }
    // find a number that fails Euler's criterion
    let ghost mut witness: nat = vp;
    proof {
        if is_prime(vp) {
            witness = lemma_nonresidue_exists(vp);
        } else {
            lemma_modulus_is_no_residue(vp);
        }
    }
    let mut z = from_u64(2);
    while is_quadratic_residue(&z, p)
        invariant
            value(&one) == 1,
            vp == value(p),
            2 <= value(&z) <= witness <= vp,
            !euler_criterion(witness, vp),
        decreases witness - value(&z),
    {
        z = sum(&z, &one);
    }
    let mut c = modpow(&z, &q, p);
    let mut r = modpow(a, &quotient(&sum(&q, &one), &two), p);
    let mut t = modpow(a, &q, p);
    let mut m = s;
    proof {
        lemma_tonelli_start(va, value(&q), vp);
        lemma_mod_bound(pow(va as int, (value(&q) + 1) / 2), vp as int);
        lemma_mod_bound(pow(va as int, value(&q)), vp as int);
        lemma_mod_bound(pow(value(&z) as int, value(&q)), vp as int);
        if is_prime(vp) {
            assert(vp % 2 == 1) by {
                if vp % 2 == 0 {
                    assert(divides(2, vp));
                }
            }
            lemma_tonelli_orders_start(va, value(&z), value(&q), s as nat, vp);
        }
    }
    loop
        invariant
            value(&one) == 1,
            va == value(a),
            vp == value(p),
            vp >= 3,
            vp % 4 != 3,
            euler_criterion(va, vp),
            (value(&r) * value(&r)) % vp == (va * value(&t)) % vp,
            value(&r) < vp,
            value(&t) < vp,
            value(&c) < vp,
            is_prime(vp) ==> m >= 1 && squared_times(value(&c), (m - 1) as nat, vp) == vp - 1
                && squared_times(value(&t), (m - 1) as nat, vp) == 1,
        decreases m,
    {
        if equal(&t, &one) {
            proof {
                assert(va * 1 == va);
            }
            return Ok(r);
        }
        let mut i: u64 = 0;
        let mut temp = t.clone();
        proof {
            lemma_squared_zero_times(value(&t), vp);
        }
        while !equal(&temp, &one) && i < m
            invariant
                i <= m,
                vp == value(p),
                vp >= 3,
                value(&one) == 1,
                value(&temp) == squared_times(value(&t), i as nat, vp),
                forall|j: nat| j < i ==> #[trigger] squared_times(value(&t), j, vp) != 1,
            decreases m - i,
        {
            proof {
                lemma_squared_once_more(value(&t), i as nat, vp);
            }
            temp = remainder(&product(&temp, &temp), p);
            i = i + 1;
        }
        if i == m {
            proof {
                if is_prime(vp) {
                    assert(squared_times(value(&t), (m - 1) as nat, vp) != 1);
                }
            }
            return Err(RabinWilliamsError::SquareRootModPrimeFailed);
        }
        let k = shift_left(&one, m - i - 1);
        let b = modpow(&c, &k, p);
        let next_r = remainder(&product(&r, &b), p);
        let next_c = remainder(&product(&b, &b), p);
        let next_t = remainder(&product(&t, &next_c), p);
        proof {
            assert(value(&k) == pow2((m - i - 1) as nat)) by {
                assert(1 * pow2((m - i - 1) as nat) == pow2((m - i - 1) as nat));
            }
            lemma_tonelli_step(va, value(&r), value(&t), value(&b), vp);
            lemma_mod_bound((value(&r) * value(&b)) as int, vp as int);
            lemma_mod_bound((value(&b) * value(&b)) as int, vp as int);
            lemma_mod_bound((value(&t) * value(&next_c)) as int, vp as int);
            if is_prime(vp) {
                assert(i >= 1);
                assert(squared_times(value(&t), (i - 1) as nat, vp) != 1);
                lemma_tonelli_orders_round(
                    value(&t),
                    value(&c),
                    value(&b),
                    i as nat,
                    m as nat,
                    vp,
                );
            }
        }
        r = next_r;
        c = next_c;
        t = next_t;
        m = i;
    }
}

/// Whether `c` passes Euler's criterion modulo both `p` and `q`.
fn is_joint_residue(c: &BigUint, p: &BigUint, q: &BigUint) -> (r: bool)
    ensures
        r == joint_residue(value(c), value(p), value(q)),
{
    is_quadratic_residue(c, p) && is_quadratic_residue(c, q)
}

/// Looks for the form of `a` that passes Euler's criterion modulo both `p`
/// and `q`, trying `a`, `n - a`, `2a mod n` and `2(n - a) mod n` in this
/// order, with `n = p * q`.  Returns the first that passes together with
/// `(e, f)`: `e` is `-1` for the negated forms and `1` otherwise, `f` is `2`
/// for the doubled forms and `1` otherwise.  Of a number above `n` only the
/// number itself is tried.  Returns `None` when no form passes.
pub fn try_make_quadratic_residue(a: &BigUint, p: &BigUint, q: &BigUint) -> (r: Option<
    (BigUint, (i32, u32)),
>)
    ensures
        match r {
            Some(t) => residue_form(value(a), value(p), value(q)) == Some(
                (value(&t.0), t.1.0 as int, t.1.1 as nat),
            ),
            None => residue_form(value(a), value(p), value(q)) is None,
        },
{
    if is_joint_residue(a, p, q) {
        return Some((a.clone(), (1, 1)));
    }
    let one = from_u64(1);
    let two = from_u64(2);
    let n = product(p, q);
    if less(&n, a) {
        return None;
    }
    if !less(&one, p) || !less(&one, q) {
        return None;
    }
    proof {
        lemma_mul_strictly_positive(value(p) as int, value(q) as int);
    }
    let neg = difference(&n, a);
    if is_joint_residue(&neg, p, q) {
        return Some((neg, (-1, 1)));
    }
    let double = remainder(&product(a, &two), &n);
    proof {
        lemma_mul_is_commutative(value(a) as int, 2);
    }
    if is_joint_residue(&double, p, q) {
        return Some((double, (1, 2)));
    }
    let double_neg = remainder(&product(&neg, &two), &n);
    proof {
        lemma_mul_is_commutative(value(&neg) as int, 2);
    }
    if is_joint_residue(&double_neg, p, q) {
        return Some((double_neg, (-1, 2)));
    }
    None
}

/// The form of `a` that passes Euler's criterion modulo both `p` and `q`,
/// for inputs that have one: see [`try_make_quadratic_residue`].  Primes
/// `p` and `q` that leave three and seven modulo eight give every `a` up to
/// `p * q` that neither of them divides such a form.
pub fn make_quadratic_residue(a: &BigUint, p: &BigUint, q: &BigUint) -> (r: (BigUint, (i32, u32)))
    requires
        residue_form(value(a), value(p), value(q)) is Some,
    ensures
        residue_form(value(a), value(p), value(q)) == Some(
            (value(&r.0), r.1.0 as int, r.1.1 as nat),
        ),
{
    match try_make_quadratic_residue(a, p, q) {
        Some(t) => t,
        None => vstd::pervasive::unreached(),
    }
}

} // verus!
