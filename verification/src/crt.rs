//! The Chinese remainder theorem: what a solution is, when the construction
//! applies, and that the solution is unique.

use crate::modular::{
    coprime, divides, lemma_congruent_modulo_product, lemma_coprime_symmetric,
    lemma_divides_multiple, lemma_divides_transitive, lemma_mod_of_mod, lemma_multiple_divides,
};
use vstd::arithmetic::div_mod::*;
use vstd::arithmetic::mul::*;
use vstd::prelude::*;

verus! {

/// The product of the numbers of a sequence; of none it is one.
pub open spec fn product_of(ms: Seq<nat>) -> nat
    decreases ms.len(),
{
    if ms.len() == 0 {
        1
    } else {
        product_of(ms.drop_last()) * ms.last()
    }
}

/// The product of the numbers of a sequence, the one at `i` left out.
pub open spec fn product_except(ms: Seq<nat>, i: int) -> nat
    decreases ms.len(),
{
    if ms.len() == 0 {
        1
    } else if i == ms.len() - 1 {
        product_of(ms.drop_last())
    } else {
        product_except(ms.drop_last(), i) * ms.last()
    }
}

/// The moduli admit the Chinese remainder construction: each is positive and
/// coprime to the product of the others.
pub open spec fn crt_solvable(ms: Seq<nat>) -> bool {
    forall|i: int|
        0 <= i < ms.len() ==> #[trigger] ms[i] > 0 && coprime(product_of(ms) / ms[i], ms[i])
}

/// `x` lies below the product of the moduli and leaves, modulo each of them,
/// the remainder asked for.
pub open spec fn is_crt_solution(x: nat, rs: Seq<nat>, ms: Seq<nat>) -> bool {
    &&& rs.len() == ms.len()
    &&& x < product_of(ms)
    &&& forall|i: int| 0 <= i < ms.len() ==> x % #[trigger] ms[i] == rs[i] % ms[i]
}

/// A product is the factor at `i` times the product of the others.
pub proof fn lemma_product_split(ms: Seq<nat>, i: int)
    requires
        0 <= i < ms.len(),
    ensures
        product_of(ms) == ms[i] * product_except(ms, i),
    decreases ms.len(),
{
    if i < ms.len() - 1 {
        lemma_product_split(ms.drop_last(), i);
        assert(ms.drop_last()[i] == ms[i]);
        lemma_mul_is_associative(
            ms[i] as int,
            product_except(ms.drop_last(), i) as int,
            ms.last() as int,
        );
    } else {
        lemma_mul_is_commutative(ms[i] as int, product_of(ms.drop_last()) as int);
    }
}

/// A product without zero factors is positive.
pub proof fn lemma_product_positive(ms: Seq<nat>)
    ensures
        product_of(ms) > 0 <==> forall|i: int| 0 <= i < ms.len() ==> #[trigger] ms[i] > 0,
    decreases ms.len(),
{
    if ms.len() > 0 {
        let front = ms.drop_last();
        lemma_product_positive(front);
        assert forall|i: int| 0 <= i < front.len() implies front[i] == ms[i] by {}
        if product_of(ms) > 0 {
            assert(product_of(front) > 0 && ms.last() > 0) by (nonlinear_arith)
                requires
                    product_of(front) * ms.last() > 0,
            ;
            assert forall|i: int| 0 <= i < ms.len() implies #[trigger] ms[i] > 0 by {
                if i < front.len() {
                    assert(front[i] > 0);
                }
            }
        }
        if forall|i: int| 0 <= i < ms.len() ==> #[trigger] ms[i] > 0 {
            assert forall|i: int| 0 <= i < front.len() implies #[trigger] front[i] > 0 by {
                assert(ms[i] > 0);
            }
            assert(ms[ms.len() - 1] > 0);
            lemma_mul_strictly_positive(product_of(front) as int, ms.last() as int);
        }
    }
}

/// A positive factor other than the one left out divides the product of
/// the rest.
pub proof fn lemma_divides_product_except(ms: Seq<nat>, i: int, j: int)
    requires
        0 <= i < ms.len(),
        0 <= j < ms.len(),
        i != j,
        ms[j] > 0,
    ensures
        divides(ms[j], product_except(ms, i)),
    decreases ms.len(),
{
    let front = ms.drop_last();
    if i == ms.len() - 1 {
        lemma_product_split(front, j);
        lemma_multiple_divides(ms[j], product_except(front, j));
    } else if j == ms.len() - 1 {
        lemma_multiple_divides(ms[j], product_except(front, i));
    } else {
        lemma_divides_product_except(front, i, j);
        lemma_divides_multiple(ms[j], product_except(front, i), ms.last());
    }
}

/// Where no factor is zero, the product divided by the factor at `i` is the
/// product of the others, and every other factor divides it.
pub proof fn lemma_cofactor(ms: Seq<nat>, i: int, j: int)
    requires
        0 <= i < ms.len(),
        0 <= j < ms.len(),
        product_of(ms) > 0,
    ensures
        ms[i] > 0,
        product_of(ms) / ms[i] == product_except(ms, i),
        product_of(ms) == ms[i] * (product_of(ms) / ms[i]),
        divides(ms[i], product_of(ms)),
        i != j ==> divides(ms[j], product_of(ms) / ms[i]),
{
    lemma_product_positive(ms);
    lemma_product_split(ms, i);
    lemma_div_multiples_vanish(product_except(ms, i) as int, ms[i] as int);
    lemma_multiple_divides(ms[i], product_except(ms, i));
    if i != j {
        lemma_divides_product_except(ms, i, j);
    }
}

/// Adding, modulo `n`, a multiple of a divisor `k` of `n` does not change
/// the remainder modulo `k`.
pub proof fn lemma_crt_other(acc: nat, t: nat, k: nat, n: nat)
    requires
        n > 0,
        divides(k, n),
        divides(k, t),
    ensures
        ((acc + t % n) % n) % k == acc % k,
{
    lemma_mod_of_mod(acc + t % n, k, n);
    lemma_mod_of_mod(t, k, n);
    lemma_add_mod_noop_right(acc as int, (t % n) as int, k as int);
    assert((t % n) % k == 0);
}

/// Adding, modulo `n`, the term `r * p * v` to a multiple of a divisor `k`
/// of `n`, where `v` inverts `p` modulo `k`, gives the remainder of `r`
/// modulo `k`.
pub proof fn lemma_crt_same(acc: nat, r: nat, p: nat, v: nat, k: nat, n: nat)
    requires
        n > 0,
        divides(k, n),
        acc % k == 0,
        (p * v) % k == 1nat % k,
    ensures
        ((acc + (r * p * v) % n) % n) % k == r % k,
{
    let t = r * p * v;
    lemma_mod_of_mod(acc + t % n, k, n);
    lemma_mod_of_mod(t, k, n);
    lemma_add_mod_noop(acc as int, (t % n) as int, k as int);
    lemma_mod_twice(t as int, k as int);
    lemma_small_mod(t % k, k);
    assert(((acc + t % n) % n) % k == t % k);
    lemma_mul_is_associative(r as int, p as int, v as int);
    lemma_mul_mod_noop_right(r as int, (p * v) as int, k as int);
    lemma_mul_mod_noop_right(r as int, 1, k as int);
    assert(r * 1 == r);
}

/// Two moduli admit the Chinese remainder construction exactly when they
/// are positive and coprime.
pub proof fn lemma_crt_solvable_pair(p: nat, q: nat)
    ensures
        crt_solvable(seq![p, q]) <==> (p > 0 && q > 0 && coprime(p, q)),
{
    let ms = seq![p, q];
    assert(ms.drop_last() =~= seq![p]);
    assert(seq![p].drop_last() =~= Seq::<nat>::empty());
    assert(product_of(Seq::<nat>::empty()) == 1);
    assert(product_of(seq![p]) == 1 * p);
    assert(product_of(ms) == p * q);
    lemma_coprime_symmetric(p, q);
    if p > 0 && q > 0 {
        lemma_div_multiples_vanish(q as int, p as int);
        lemma_div_multiples_vanish(p as int, q as int);
        lemma_mul_is_commutative(p as int, q as int);
        assert((p * q) / p == q);
        assert((p * q) / q == p);
    }
    if crt_solvable(ms) {
        assert(ms[0] > 0 && coprime(product_of(ms) / ms[0], ms[0]));
        assert(ms[1] > 0 && coprime(product_of(ms) / ms[1], ms[1]));
    }
    if p > 0 && q > 0 && coprime(p, q) {
        assert forall|i: int| 0 <= i < ms.len() implies #[trigger] ms[i] > 0 && coprime(
            product_of(ms) / ms[i],
            ms[i],
        ) by {}
    }
}

/// The product of the moduli before the one at `k` divides the product of
/// all moduli but that one.
proof fn lemma_prefix_divides_cofactor(ms: Seq<nat>, k: int)
    requires
        0 <= k < ms.len(),
        product_of(ms) > 0,
    ensures
        divides(product_of(ms.take(k)), product_except(ms, k)),
    decreases ms.len(),
{
    lemma_product_positive(ms);
    let front = ms.drop_last();
    assert forall|i: int| 0 <= i < front.len() implies #[trigger] front[i] > 0 by {
        assert(front[i] == ms[i]);
    }
    lemma_product_positive(front);
    if k == ms.len() - 1 {
        assert(ms.take(k) =~= front);
        lemma_mod_self_0(product_of(front) as int);
    } else {
        lemma_prefix_divides_cofactor(front, k);
        assert(front.take(k) =~= ms.take(k));
        lemma_divides_multiple(product_of(ms.take(k)), product_except(front, k), ms.last());
    }
}

/// Two numbers with the same remainders modulo every modulus are congruent
/// modulo the product of the first `k` moduli.
proof fn lemma_congruent_modulo_prefix(x: nat, y: nat, ms: Seq<nat>, k: int)
    requires
        crt_solvable(ms),
        0 <= k <= ms.len(),
        forall|i: int| 0 <= i < ms.len() ==> x % #[trigger] ms[i] == y % ms[i],
    ensures
        product_of(ms.take(k)) > 0,
        x % product_of(ms.take(k)) == y % product_of(ms.take(k)),
    decreases k,
{
    if k == 0 {
        assert(ms.take(0) =~= Seq::<nat>::empty());
    } else {
        let j = k - 1;
        lemma_congruent_modulo_prefix(x, y, ms, j);
        let prefix = product_of(ms.take(j));
        assert(ms.take(k).drop_last() =~= ms.take(j));
        assert(ms.take(k).last() == ms[j]);
        assert(ms[j] > 0 && coprime(product_of(ms) / ms[j], ms[j]));
        lemma_product_positive(ms);
        assert(product_of(ms) > 0) by {
            assert forall|i: int| 0 <= i < ms.len() implies #[trigger] ms[i] > 0 by {
                assert(ms[i] > 0 && coprime(product_of(ms) / ms[i], ms[i]));
            }
        }
        lemma_cofactor(ms, j, j);
        lemma_prefix_divides_cofactor(ms, j);
        assert forall|d: nat| #[trigger] divides(d, prefix) && divides(d, ms[j]) implies d
            == 1 by {
            lemma_divides_transitive(d, prefix, product_except(ms, j));
        }
        lemma_congruent_modulo_product(x as int, y as int, prefix, ms[j]);
        lemma_mul_strictly_positive(prefix as int, ms[j] as int);
    }
}

/// The Chinese remainder theorem, uniqueness: moduli that admit the
/// construction have at most one solution for given remainders.
pub proof fn lemma_crt_unique(x: nat, y: nat, rs: Seq<nat>, ms: Seq<nat>)
    requires
        crt_solvable(ms),
        is_crt_solution(x, rs, ms),
        is_crt_solution(y, rs, ms),
    ensures
        x == y,
{
    assert forall|i: int| 0 <= i < ms.len() implies x % #[trigger] ms[i] == y % ms[i] by {
        assert(x % ms[i] == rs[i] % ms[i]);
        assert(y % ms[i] == rs[i] % ms[i]);
    }
    lemma_congruent_modulo_prefix(x, y, ms, ms.len() as int);
    assert(ms.take(ms.len() as int) =~= ms);
    lemma_small_mod(x, product_of(ms));
    lemma_small_mod(y, product_of(ms));
}

} // verus!
