//! Byte strings as numbers, most significant byte first.

use vstd::arithmetic::power2::*;
use vstd::prelude::*;

verus! {

/// The number that a byte string denotes when read most significant byte
/// first.  The empty string denotes zero.
pub open spec fn be_value(bytes: Seq<u8>) -> nat
    decreases bytes.len(),
{
    if bytes.len() == 0 {
        0
    } else {
        be_value(bytes.drop_last()) * 256 + bytes.last() as nat
    }
}

/// The shortest byte string that denotes `x` when read most significant byte
/// first.  It is never empty: zero is the single byte `0`.
pub open spec fn be_bytes(x: nat) -> Seq<u8>
    decreases x,
{
    if x < 256 {
        seq![x as u8]
    } else {
        be_bytes(x / 256).push((x % 256) as u8)
    }
}

/// Reading the shortest byte string of a number gives the number back.
pub proof fn lemma_be_bytes_value(x: nat)
    ensures
        be_value(be_bytes(x)) == x,
        be_bytes(x).len() >= 1,
    decreases x,
{
    if x < 256 {
        let s = seq![x as u8];
        assert(s.drop_last() =~= Seq::<u8>::empty());
        assert(be_value(s.drop_last()) == 0);
        assert(s.last() == x as u8);
    } else {
        lemma_be_bytes_value(x / 256);
        let front = be_bytes(x / 256);
        let s = front.push((x % 256) as u8);
        assert(s.drop_last() =~= front);
        assert(s.last() == (x % 256) as u8);
    }
}

/// A byte string denotes a number below `2^(8 * length)`.
pub proof fn lemma_be_value_bound(bytes: Seq<u8>)
    ensures
        be_value(bytes) < pow2(8 * bytes.len()),
    decreases bytes.len(),
{
    lemma2_to64();
    if bytes.len() > 0 {
        let front = bytes.drop_last();
        lemma_be_value_bound(front);
        lemma_pow2_adds(8 * front.len(), 8);
        assert(be_value(front) * 256 + 255 < pow2(8 * front.len()) * 256) by (nonlinear_arith)
            requires
                be_value(front) < pow2(8 * front.len()),
        ;
    }
}

} // verus!
