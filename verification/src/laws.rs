//! Algebraic laws of the engines, stated over the limb model and proved for
//! every buffer. Each law is phrased over the same values that the engines'
//! contracts pin down, so it applies to any pair of engine calls.

use vstd::prelude::*;
use vstd::arithmetic::power2::*;
use vstd::arithmetic::div_mod::*;
use vstd::arithmetic::mul::*;
use crate::limbs::{to_nat, lemma_to_nat_bound, lemma_to_nat_injective, lemma_to_nat_zero};

verus! {

/// Addition is commutative: adding equal-length buffers either way around
/// yields the same limbs and the same carry, because `add`'s contract pins
/// the value and a fixed-length buffer is determined by its value.
pub proof fn lemma_add_commutes(
    a: Seq<u64>,
    b: Seq<u64>,
    r1: Seq<u64>,
    c1: bool,
    r2: Seq<u64>,
    c2: bool,
)
    requires
        a.len() == b.len(),
        r1.len() == a.len(),
        r2.len() == a.len(),
        to_nat(r1) + (if c1 {
            pow2((64 * a.len()) as nat)
        } else {
            0nat
        }) == to_nat(a) + to_nat(b),
        to_nat(r2) + (if c2 {
            pow2((64 * a.len()) as nat)
        } else {
            0nat
        }) == to_nat(b) + to_nat(a),
    ensures
        r1 == r2,
        c1 == c2,
{
    lemma_to_nat_bound(r1);
    lemma_to_nat_bound(r2);
    lemma_to_nat_injective(r1, r2);
}

/// Subtracting a buffer from itself leaves the all-zero buffer and no borrow.
pub proof fn lemma_sub_self_is_zero(a: Seq<u64>, r: Seq<u64>, borrow: bool)
    requires
        r.len() == a.len(),
        to_nat(r) + to_nat(a) == to_nat(a) + (if borrow {
            pow2((64 * a.len()) as nat)
        } else {
            0nat
        }),
    ensures
        !borrow,
        forall|i: int| 0 <= i < r.len() ==> r[i] == 0,
{
    lemma_to_nat_bound(r);
    lemma_to_nat_zero(r);
}

/// Multiplying by one returns the multiplicand's limbs unchanged.
pub proof fn lemma_mul_identity(a: Seq<u64>, one: Seq<u64>, r: Seq<u64>)
    requires
        one.len() == a.len(),
        r.len() == a.len(),
        to_nat(one) == 1,
        to_nat(r) == (to_nat(a) * to_nat(one)) % pow2((64 * a.len()) as nat),
    ensures
        r == a,
{
    lemma_to_nat_bound(a);
    lemma_mul_basics(to_nat(a) as int);
    lemma_pow2_pos((64 * a.len()) as nat);
    lemma_small_mod(to_nat(a), pow2((64 * a.len()) as nat));
    lemma_to_nat_injective(r, a);
}

/// A left shift followed by a right shift by the same amount restores the
/// original buffer, whenever the shift kept every bit inside the buffer —
/// that is, when the shift amount is below the leading zero count.
pub proof fn lemma_shift_round_trip(a: Seq<u64>, k: nat, s1: Seq<u64>, s2: Seq<u64>)
    requires
        s1.len() == a.len(),
        s2.len() == a.len(),
        to_nat(a) * pow2(k) < pow2((64 * a.len()) as nat),
        to_nat(s1) == (to_nat(a) * pow2(k)) % pow2((64 * a.len()) as nat),
        to_nat(s2) == to_nat(s1) / pow2(k),
    ensures
        s2 == a,
{
    lemma_pow2_pos(k);
    lemma_pow2_pos((64 * a.len()) as nat);
    lemma_small_mod(to_nat(a) * pow2(k), pow2((64 * a.len()) as nat));
    lemma_div_by_multiple(to_nat(a) as int, pow2(k) as int);
    lemma_mul_is_commutative(to_nat(a) as int, pow2(k) as int);
    lemma_to_nat_injective(s2, a);
}

} // verus!
