//! The engines over raw limb buffers: carry-aware addition and subtraction,
//! lexicographic comparison, multi-word bit shifts, bitwise logic, recursive
//! double-width multiplication, restoring long division, and bounded random
//! sampling.

use vstd::prelude::*;
use vstd::arithmetic::power2::*;
use vstd::arithmetic::div_mod::*;
use vstd::arithmetic::mul::*;
use core::cmp::Ordering;
use crate::random::RandomSource;
use crate::limbs::{to_nat, base, lemma_base_is_pow2_64, lemma_to_nat_bound, lemma_to_nat_split,
    lemma_to_nat_take_succ, lemma_to_nat_zero, lemma_to_nat_update,
    lemma_to_nat_prefix_lt, lemma_to_nat_push};

verus! {

/// Adds `b` into `a` in place, least-significant limb first, propagating the
/// carry through all of `a`; returns whether a carry escaped the top limb.
pub fn add(a: &mut Vec<u64>, b: &Vec<u64>) -> (carry: bool)
    requires
        old(a).len() >= b.len(),
    ensures
        final(a).len() == old(a).len(),
        to_nat(final(a)@) + (if carry {
            pow2((64 * final(a).len()) as nat)
        } else {
            0nat
        }) == to_nat(old(a)@) + to_nat(b@),
{
    let b_len = b.len();
    let a_len = a.len();
    let mut overflow = false;
    let mut i: usize = 0;
    while i < b_len
        invariant
            b_len == b.len(),
            a_len == a.len(),
            a.len() == old(a).len(),
            b.len() <= a.len(),
            0 <= i <= b.len(),
            forall|j: int| i <= j < a.len() ==> a@[j] == old(a)@[j],
            to_nat(a@.take(i as int)) + (if overflow {
                pow2((64 * i) as nat)
            } else {
                0nat
            }) == to_nat(old(a)@.take(i as int)) + to_nat(b@.take(i as int)),
        decreases b.len() - i,
    {
        let x = a[i];
        let y = b[i];
        let digit = if overflow {
            x.wrapping_add(y).wrapping_add(1)
        } else {
            x.wrapping_add(y)
        };
        // With a carry in, a wrapped sum lands at or below the original limb;
        // without one, strictly below it.
        let new_overflow = if overflow {
            digit <= x
        } else {
            digit < x
        };
        proof {
            let c: nat = if overflow {
                1
            } else {
                0
            };
            let w: nat = if new_overflow {
                1
            } else {
                0
            };
            assert(digit as nat + w * base() == x as nat + y as nat + c);
            lemma_step_add(old(a)@, a@, b@, i as int, digit, c, w);
        }
        a[i] = digit;
        overflow = new_overflow;
        i += 1;
    }
    assert(b@.take(b_len as int) =~= b@);
    while i < a_len && overflow
        invariant
            a_len == a.len(),
            a.len() == old(a).len(),
            b.len() <= i <= a.len(),
            forall|j: int| i <= j < a.len() ==> a@[j] == old(a)@[j],
            to_nat(a@.take(i as int)) + (if overflow {
                pow2((64 * i) as nat)
            } else {
                0nat
            }) == to_nat(old(a)@.take(i as int)) + to_nat(b@),
        decreases a.len() - i,
    {
        let x = a[i];
        let digit = x.wrapping_add(1);
        let new_overflow = digit < x;
        proof {
            let w: nat = if new_overflow {
                1
            } else {
                0
            };
            assert(digit as nat + w * base() == x as nat + 1);
            lemma_step_add(old(a)@, a@, b@, i as int, digit, 1, w);
        }
        a[i] = digit;
        overflow = new_overflow;
        i += 1;
    }
    proof {
        if i == a.len() {
            assert(a@.take(i as int) =~= a@);
            assert(old(a)@.take(i as int) =~= old(a)@);
        } else {
            assert(!overflow);
            lemma_to_nat_split(a@, i as int);
            lemma_to_nat_split(old(a)@, i as int);
            assert(a@.skip(i as int) =~= old(a)@.skip(i as int));
        }
    }
    overflow
}

/// One limb of carried addition: folding the new digit into the prefix value.
/// `x` is the old limb at position i, `y` the addend limb (zero past the
/// addend's length), `c` the carry in and `w` the carry out.
proof fn lemma_step_add(orig: Seq<u64>, cur: Seq<u64>, b: Seq<u64>, i: int, digit: u64, c: nat, w: nat)
    requires
        0 <= i < cur.len(),
        cur.len() == orig.len(),
        cur[i] == orig[i],
        c == 0 || c == 1,
        w == 0 || w == 1,
        digit as nat + w * base() == orig[i] as nat + (if i < b.len() {
            b[i] as nat
        } else {
            0nat
        }) + c,
        to_nat(cur.take(i)) + c * pow2((64 * i) as nat) == to_nat(orig.take(i)) + (if i < b.len() {
            to_nat(b.take(i))
        } else {
            to_nat(b)
        }),
    ensures
        to_nat(cur.update(i, digit).take(i + 1)) + w * pow2((64 * (i + 1)) as nat) == to_nat(
            orig.take(i + 1),
        ) + (if i < b.len() {
            to_nat(b.take(i + 1))
        } else {
            to_nat(b)
        }),
{
    lemma_base_is_pow2_64();
    let p = pow2((64 * i) as nat);
    let pn = pow2((64 * (i + 1)) as nat);
    assert(pn == p * base()) by {
        lemma_pow2_adds((64 * i) as nat, 64);
        assert(64 * (i + 1) == 64 * i + 64);
    }
    let u = cur.update(i, digit);
    lemma_to_nat_take_succ(u, i);
    assert(u.take(i) =~= cur.take(i));
    assert(u[i] == digit);
    assert(to_nat(u.take(i + 1)) == to_nat(cur.take(i)) + p * (digit as nat));
    lemma_to_nat_take_succ(orig, i);
    if i < b.len() {
        lemma_to_nat_take_succ(b, i);
    }
    let yv: nat = if i < b.len() {
        b[i] as nat
    } else {
        0nat
    };
    let bpre: nat = if i < b.len() {
        to_nat(b.take(i))
    } else {
        to_nat(b)
    };
    assert(to_nat(cur.take(i)) + p * (digit as nat) + w * pn == to_nat(orig.take(i)) + p * (
    orig[i] as nat) + bpre + p * yv) by (nonlinear_arith)
        requires
            digit as nat + w * base() == orig[i] as nat + yv + c,
            to_nat(cur.take(i)) + c * p == to_nat(orig.take(i)) + bpre,
            pn == p * base(),
    ;
}

/// Subtracts `b` from `a` in place (equal lengths), least-significant limb
/// first with borrow propagation; returns whether the subtraction wrapped.
pub fn sub(a: &mut Vec<u64>, b: &Vec<u64>) -> (borrow: bool)
    requires
        old(a).len() == b.len(),
    ensures
        final(a).len() == old(a).len(),
        to_nat(final(a)@) + to_nat(b@) == to_nat(old(a)@) + (if borrow {
            pow2((64 * final(a).len()) as nat)
        } else {
            0nat
        }),
        borrow <==> to_nat(old(a)@) < to_nat(b@),
{
    let len = a.len();
    let mut underflow = false;
    let mut i: usize = 0;
    while i < len
        invariant
            len == a.len(),
            a.len() == old(a).len(),
            a.len() == b.len(),
            0 <= i <= a.len(),
            forall|j: int| i <= j < a.len() ==> a@[j] == old(a)@[j],
            to_nat(a@.take(i as int)) + to_nat(b@.take(i as int)) == to_nat(old(a)@.take(i as int))
                + (if underflow {
                pow2((64 * i) as nat)
            } else {
                0nat
            }),
        decreases a.len() - i,
    {
        let x = a[i];
        let y = b[i];
        let digit = if underflow {
            x.wrapping_sub(y).wrapping_sub(1)
        } else {
            x.wrapping_sub(y)
        };
        // With a borrow in, a wrapped difference lands at or above the original
        // limb; without one, strictly above it.
        let new_underflow = if underflow {
            digit >= x
        } else {
            digit > x
        };
        proof {
            let c: nat = if underflow {
                1
            } else {
                0
            };
            let w: nat = if new_underflow {
                1
            } else {
                0
            };
            assert(digit as nat == x as nat + w * base() - y as nat - c);
            lemma_step_sub(old(a)@, a@, b@, i as int, digit, c, w);
        }
        a[i] = digit;
        underflow = new_underflow;
        i += 1;
    }
    proof {
        assert(a@.take(len as int) =~= a@);
        assert(b@.take(len as int) =~= b@);
        assert(old(a)@.take(len as int) =~= old(a)@);
        lemma_to_nat_bound(a@);
        lemma_to_nat_bound(b@);
        lemma_to_nat_bound(old(a)@);
    }
    underflow
}

/// One limb of borrowed subtraction: folding the new digit into the prefix
/// value.
proof fn lemma_step_sub(orig: Seq<u64>, cur: Seq<u64>, b: Seq<u64>, i: int, digit: u64, c: nat, w: nat)
    requires
        0 <= i < cur.len(),
        cur.len() == orig.len(),
        cur.len() == b.len(),
        cur[i] == orig[i],
        c == 0 || c == 1,
        w == 0 || w == 1,
        digit as nat == orig[i] as nat + w * base() - b[i] as nat - c,
        to_nat(cur.take(i)) + to_nat(b.take(i)) == to_nat(orig.take(i)) + c * pow2((64 * i) as nat),
    ensures
        to_nat(cur.update(i, digit).take(i + 1)) + to_nat(b.take(i + 1)) == to_nat(
            orig.take(i + 1),
        ) + w * pow2((64 * (i + 1)) as nat),
{
    lemma_base_is_pow2_64();
    let p = pow2((64 * i) as nat);
    let pn = pow2((64 * (i + 1)) as nat);
    assert(pn == p * base()) by {
        lemma_pow2_adds((64 * i) as nat, 64);
        assert(64 * (i + 1) == 64 * i + 64);
    }
    let u = cur.update(i, digit);
    lemma_to_nat_take_succ(u, i);
    assert(u.take(i) =~= cur.take(i));
    assert(u[i] == digit);
    assert(to_nat(u.take(i + 1)) == to_nat(cur.take(i)) + p * (digit as nat));
    lemma_to_nat_take_succ(orig, i);
    lemma_to_nat_take_succ(b, i);
    assert(p * (digit as nat) + p * (b[i] as nat) + c * p == p * (orig[i] as nat) + w * (p
        * base())) by (nonlinear_arith)
        requires
            digit as nat == orig[i] as nat + w * base() - b[i] as nat - c,
    ;
    assert(w * pn == w * (p * base()));
}

/// Lexicographic comparison of equal-length limb buffers, most significant
/// limb first; the result matches the order of the denoted values.
pub fn cmp(a: &Vec<u64>, b: &Vec<u64>) -> (r: Ordering)
    requires
        a.len() == b.len(),
    ensures
        r == Ordering::Less <==> to_nat(a@) < to_nat(b@),
        r == Ordering::Equal <==> to_nat(a@) == to_nat(b@),
        r == Ordering::Greater <==> to_nat(a@) > to_nat(b@),
{
    let len = a.len();
    let mut order = Ordering::Equal;
    let mut i: usize = len;
    while i > 0
        invariant
            len == a.len(),
            a.len() == b.len(),
            0 <= i <= a.len(),
            order == Ordering::Equal ==> a@.skip(i as int) =~= b@.skip(i as int),
            order == Ordering::Less ==> to_nat(a@.skip(i as int)) < to_nat(b@.skip(i as int)),
            order == Ordering::Greater ==> to_nat(a@.skip(i as int)) > to_nat(b@.skip(i as int)),
        decreases i,
    {
        i -= 1;
        let x = a[i];
        let y = b[i];
        proof {
            lemma_step_cmp(a@, b@, i as int);
        }
        if x > y {
            order = match order {
                Ordering::Equal => Ordering::Greater,
                _ => order,
            };
        } else if y > x {
            order = match order {
                Ordering::Equal => Ordering::Less,
                _ => order,
            };
        }
    }
    proof {
        assert(a@.skip(0) =~= a@);
        assert(b@.skip(0) =~= b@);
        if order == Ordering::Equal {
            assert(to_nat(a@) == to_nat(b@));
        }
    }
    order
}

/// Extending two compared suffixes downward by one limb keeps a decided
/// order and decides a tie by the new limbs.
proof fn lemma_step_cmp(a: Seq<u64>, b: Seq<u64>, i: int)
    requires
        a.len() == b.len(),
        0 <= i < a.len(),
    ensures
        a.skip(i + 1) =~= b.skip(i + 1) && a[i] == b[i] ==> a.skip(i) =~= b.skip(i),
        a.skip(i + 1) =~= b.skip(i + 1) && a[i] < b[i] ==> to_nat(a.skip(i)) < to_nat(b.skip(i)),
        a.skip(i + 1) =~= b.skip(i + 1) && a[i] > b[i] ==> to_nat(a.skip(i)) > to_nat(b.skip(i)),
        to_nat(a.skip(i + 1)) < to_nat(b.skip(i + 1)) ==> to_nat(a.skip(i)) < to_nat(b.skip(i)),
        to_nat(a.skip(i + 1)) > to_nat(b.skip(i + 1)) ==> to_nat(a.skip(i)) > to_nat(b.skip(i)),
{
    lemma_base_is_pow2_64();
    let sa = a.skip(i);
    let sb = b.skip(i);
    assert(sa[0] == a[i]);
    assert(sb[0] == b[i]);
    assert(sa.drop_first() =~= a.skip(i + 1));
    assert(sb.drop_first() =~= b.skip(i + 1));
    let ra = to_nat(a.skip(i + 1));
    let rb = to_nat(b.skip(i + 1));
    assert(to_nat(sa) == a[i] as nat + base() * ra);
    assert(to_nat(sb) == b[i] as nat + base() * rb);
    if a.skip(i + 1) =~= b.skip(i + 1) {
        if a[i] == b[i] {
            assert forall|j: int| 0 <= j < sa.len() implies sa[j] == sb[j] by {
                if j > 0 {
                    assert(sa[j] == a.skip(i + 1)[j - 1]);
                    assert(sb[j] == b.skip(i + 1)[j - 1]);
                }
            }
            assert(sa =~= sb);
        }
    }
    if ra < rb {
        assert(a[i] as nat + base() * ra < base() + base() * ra);
        assert(base() + base() * ra == base() * (ra + 1)) by (nonlinear_arith);
        assert(base() * (ra + 1) <= base() * rb) by (nonlinear_arith)
            requires
                ra + 1 <= rb,
        ;
    }
    if ra > rb {
        assert(b[i] as nat + base() * rb < base() + base() * rb);
        assert(base() + base() * rb == base() * (rb + 1)) by (nonlinear_arith);
        assert(base() * (rb + 1) <= base() * ra) by (nonlinear_arith)
            requires
                rb + 1 <= ra,
        ;
    }
}

/// Element-wise bitwise OR of `b` into `a`, over the common length.
pub fn bitor(a: &mut Vec<u64>, b: &Vec<u64>)
    requires
        old(a).len() == b.len(),
    ensures
        final(a).len() == old(a).len(),
        forall|j: int| 0 <= j < final(a).len() ==> final(a)@[j] == (old(a)@[j] | b@[j]),
{
    let len = a.len();
    let mut i: usize = 0;
    while i < len
        invariant
            len == a.len(),
            a.len() == old(a).len(),
            a.len() == b.len(),
            0 <= i <= a.len(),
            forall|j: int| i <= j < a.len() ==> a@[j] == old(a)@[j],
            forall|j: int| 0 <= j < i ==> a@[j] == (old(a)@[j] | b@[j]),
        decreases a.len() - i,
    {
        let v = a[i] | b[i];
        a[i] = v;
        i += 1;
    }
}

/// Element-wise bitwise AND of `b` into `a`, over the common length.
pub fn bitand(a: &mut Vec<u64>, b: &Vec<u64>)
    requires
        old(a).len() == b.len(),
    ensures
        final(a).len() == old(a).len(),
        forall|j: int| 0 <= j < final(a).len() ==> final(a)@[j] == (old(a)@[j] & b@[j]),
{
    let len = a.len();
    let mut i: usize = 0;
    while i < len
        invariant
            len == a.len(),
            a.len() == old(a).len(),
            a.len() == b.len(),
            0 <= i <= a.len(),
            forall|j: int| i <= j < a.len() ==> a@[j] == old(a)@[j],
            forall|j: int| 0 <= j < i ==> a@[j] == (old(a)@[j] & b@[j]),
        decreases a.len() - i,
    {
        let v = a[i] & b[i];
        a[i] = v;
        i += 1;
    }
}

/// Element-wise bitwise XOR of `b` into `a`, over the common length.
pub fn bitxor(a: &mut Vec<u64>, b: &Vec<u64>)
    requires
        old(a).len() == b.len(),
    ensures
        final(a).len() == old(a).len(),
        forall|j: int| 0 <= j < final(a).len() ==> final(a)@[j] == (old(a)@[j] ^ b@[j]),
{
    let len = a.len();
    let mut i: usize = 0;
    while i < len
        invariant
            len == a.len(),
            a.len() == old(a).len(),
            a.len() == b.len(),
            0 <= i <= a.len(),
            forall|j: int| i <= j < a.len() ==> a@[j] == old(a)@[j],
            forall|j: int| 0 <= j < i ==> a@[j] == (old(a)@[j] ^ b@[j]),
        decreases a.len() - i,
    {
        let v = a[i] ^ b[i];
        a[i] = v;
        i += 1;
    }
}

/// Element-wise bitwise complement of every limb of `a`.
pub fn bitnot(a: &mut Vec<u64>)
    ensures
        final(a).len() == old(a).len(),
        forall|j: int| 0 <= j < final(a).len() ==> final(a)@[j] == !old(a)@[j],
{
    let len = a.len();
    let mut i: usize = 0;
    while i < len
        invariant
            len == a.len(),
            a.len() == old(a).len(),
            0 <= i <= a.len(),
            forall|j: int| i <= j < a.len() ==> a@[j] == old(a)@[j],
            forall|j: int| 0 <= j < i ==> a@[j] == !old(a)@[j],
        decreases a.len() - i,
    {
        let v = !a[i];
        a[i] = v;
        i += 1;
    }
}


/// Shifting one into position s yields 2^s, for s below the word width.
proof fn lemma_one_shl(s: u64)
    requires
        s < 64,
    ensures
        (1u64 << s) as nat == pow2(s as nat),
{
    vstd::bits::lemma_u64_pow2_no_overflow(s as nat);
    vstd::bits::lemma_u64_shl_is_mul(1u64, s);
}

/// A truncating left shift of one limb keeps its low 64 - r bits, scaled
/// up by 2^r.
proof fn lemma_shl_word(x: u64, r: u64)
    requires
        0 < r < 64,
    ensures
        (x << r) as nat == (x as nat % pow2((64 - r) as nat)) * pow2(r as nat),
        (x << r) as nat == (x as nat * pow2(r as nat)) % pow2(64),
{
    let m: u64 = (64 - r) as u64;
    assert(x << r == ((x & (u64::MAX >> r)) << r)) by (bit_vector)
        requires
            0 < r < 64,
    ;
    lemma_one_shl(r);
    lemma_pow2_pos(m as nat);
    lemma_pow2_pos(r as nat);
    // The kept mask is the low (64 - r)-bit mask.
    assert(u64::MAX >> r == (vstd::bits::low_bits_mask(m as nat) as u64)) by {
        vstd::bits::lemma_u64_shr_is_div(u64::MAX, r);
        lemma_pow2_adds(r as nat, m as nat);
        lemma2_to64();
        assert(pow2(64) - 1 == pow2(r as nat) * (pow2(m as nat) - 1) + (pow2(r as nat)
            - 1)) by (nonlinear_arith)
            requires
                pow2(r as nat) * pow2(m as nat) == pow2(64),
        ;
        lemma_fundamental_div_mod_converse(
            pow2(64) - 1,
            pow2(r as nat) as int,
            pow2(m as nat) - 1,
            pow2(r as nat) - 1,
        );
    }
    vstd::bits::lemma_u64_low_bits_mask_is_mod(x, m as nat);
    vstd::bits::lemma_u64_pow2_no_overflow(m as nat);
    let xl: u64 = x & (u64::MAX >> r);
    assert(xl as nat == x as nat % pow2(m as nat));
    lemma_pow2_adds(r as nat, m as nat);
    lemma_pow2_adds(m as nat, r as nat);
    lemma2_to64();
    assert((xl as nat) * pow2(r as nat) < pow2(64)) by (nonlinear_arith)
        requires
            (xl as nat) < pow2(m as nat),
            pow2(m as nat) * pow2(r as nat) == pow2(64),
            pow2(r as nat) > 0,
    ;
    vstd::bits::lemma_u64_shl_is_mul(xl, r);
    assert((x << r) as nat == (x as nat % pow2(m as nat)) * pow2(r as nat));
    lemma_truncate_middle(x as int, pow2(r as nat) as int, pow2(m as nat) as int);
    assert(pow2(r as nat) * (x as nat) == (x as nat) * pow2(r as nat)) by {
        lemma_mul_is_commutative(pow2(r as nat) as int, x as int);
    }
    assert(pow2(r as nat) * (x as nat % pow2(m as nat)) == (x as nat % pow2(m as nat)) * pow2(
        r as nat,
    )) by {
        lemma_mul_is_commutative(pow2(r as nat) as int, (x as nat % pow2(m as nat)) as int);
    }
}

/// A right shift of one limb divides it by 2^r.
proof fn lemma_shr_word(x: u64, r: u64)
    requires
        r < 64,
    ensures
        (x >> r) as nat == x as nat / pow2(r as nat),
{
    vstd::bits::lemma_u64_shr_is_div(x, r);
}

/// Shifting every limb of `w` left by r bits inside the buffer multiplies
/// the denoted value by 2^r, modulo the buffer's capacity.
proof fn lemma_shl_bits(w: Seq<u64>, z: Seq<u64>, r: u64)
    requires
        w.len() == z.len(),
        w.len() >= 1,
        0 < r < 64,
        z[0] == w[0] << r,
        forall|j: int|
            1 <= j < z.len() ==> z[j] == ((w[j] << r) | (w[j - 1] >> ((64 - r) as u64))),
    ensures
        to_nat(z) == (to_nat(w) * pow2(r as nat)) % pow2((64 * w.len()) as nat),
    decreases w.len(),
{
    lemma_base_is_pow2_64();
    let rn = r as nat;
    let mn = (64 - r) as nat;
    let mword: u64 = (64 - r) as u64;
    let pr = pow2(rn);
    if w.len() == 1 {
        assert(z.drop_first().len() == 0);
        assert(w.drop_first().len() == 0);
        assert(to_nat(z.drop_first()) == 0);
        assert(to_nat(w.drop_first()) == 0);
        assert(to_nat(z) == z[0] as nat);
        assert(to_nat(w) == w[0] as nat);
        lemma_shl_word(w[0], r);
        assert(64 * w.len() == 64);
    } else {
        let m = w.len() - 1;
        let wp = w.drop_last();
        let zp = z.drop_last();
        assert(zp.len() == m && wp.len() == m);
        assert(zp[0] == wp[0] << r);
        assert(forall|j: int|
            1 <= j < zp.len() ==> zp[j] == ((wp[j] << r) | (wp[j - 1] >> mword)));
        lemma_shl_bits(wp, zp, r);
        let wv = to_nat(w);
        let wpv = to_nat(wp);
        let t = w[m] as nat;
        let pm = pow2((64 * m) as nat);
        let pn = pow2((64 * w.len()) as nat);
        assert(w.take(m) =~= wp);
        assert(w.take(m + 1) =~= w);
        lemma_to_nat_take_succ(w, m);
        assert(wv == wpv + pm * t);
        assert(z.take(m) =~= zp);
        assert(z.take(m + 1) =~= z);
        lemma_to_nat_take_succ(z, m);
        assert(to_nat(z) == to_nat(zp) + pm * (z[m] as nat));
        assert(pn == pm * base()) by {
            lemma_pow2_adds((64 * m) as nat, 64);
            assert(64 * w.len() == 64 * m + 64);
        }
        lemma_pow2_pos((64 * m) as nat);
        lemma_pow2_pos(rn);
        lemma_pow2_pos(mn);
        let wvp: int = (wv * pr) as int;
        let pmi: int = pm as int;
        let bi: int = base() as int;
        // Split the shifted value at the buffer's former capacity.
        lemma_breakdown(wvp, pmi, bi);
        assert(wvp % (pmi * bi) == pmi * ((wvp / pmi) % bi) + wvp % pmi);
        // The low part: only the lower limbs contribute.
        assert(wvp == pmi * ((t * pr) as int) + (wpv * pr) as int) by (nonlinear_arith)
            requires
                wv == wpv + pm * t,
                wvp == (wv * pr) as int,
                pmi == pm as int,
        ;
        assert(wvp % pmi == ((wpv * pr) as int) % pmi) by {
            lemma_mod_multiples_vanish((t * pr) as int, (wpv * pr) as int, pmi);
        }
        assert(wvp % pmi == to_nat(zp) as int);
        // The quotient by 2^(64 m): the top limb, shifted, plus the spill of
        // the limb below it.
        let q = (w[m - 1] >> mword) as nat;
        lemma_shr_word(w[m - 1], mword);
        assert(q == (w[m - 1] as nat) / pow2(mn));
        let pm1 = pow2((64 * (m - 1)) as nat);
        let tl = to_nat(wp.take(m - 1));
        lemma_to_nat_take_succ(wp, m - 1);
        assert(wp.take(m) =~= wp);
        assert(wpv == tl + pm1 * (w[m - 1] as nat)) by {
            assert(wp[m - 1] == w[m - 1]);
        }
        lemma_to_nat_bound(wp.take(m - 1));
        assert(wp.take(m - 1).len() == m - 1);
        assert(tl < pm1);
        lemma_pow2_pos((64 * (m - 1)) as nat);
        // wpv / 2^(64(m-1)) is the limb below the top.
        assert(wpv as int / pm1 as int == w[m - 1] as int) by {
            lemma_fundamental_div_mod_converse(
                wpv as int,
                pm1 as int,
                w[m - 1] as int,
                tl as int,
            );
        }
        // (wpv * 2^r) / 2^(64 m) == wpv / 2^(64 m - r) == q.
        let pd = pow2((64 * m - r) as nat);
        assert(pm == pr * pd) by {
            lemma_pow2_adds(rn, (64 * m - r) as nat);
            assert(rn + (64 * m - r) as nat == (64 * m) as nat);
        }
        lemma_pow2_pos((64 * m - r) as nat);
        assert(((wpv * pr) as int) / pm as int == wpv as int / pd as int) by {
            lemma_div_denominator((wpv * pr) as int, pr as int, pd as int);
            lemma_div_by_multiple(wpv as int, pr as int);
            assert(wpv * pr == pr * wpv) by {
                lemma_mul_is_commutative(wpv as int, pr as int);
            }
        }
        assert(pd == pm1 * pow2(mn)) by {
            lemma_pow2_adds((64 * (m - 1)) as nat, mn);
            assert((64 * (m - 1)) as nat + mn == (64 * m - r) as nat);
        }
        assert(wpv as int / pd as int == q) by {
            lemma_div_denominator(wpv as int, pm1 as int, pow2(mn) as int);
        }
        // Hoist the top limb out of the quotient.
        assert(wv * pr == (wpv * pr) + (t * pr) * pm) by (nonlinear_arith)
            requires
                wv == wpv + pm * t,
        ;
        assert(wvp / pmi == q + t * pr) by {
            lemma_hoist_over_denominator((wpv * pr) as int, (t * pr) as int, pm);
            assert(wvp == (wpv * pr) as int + ((t * pr) as int) * pmi) by (nonlinear_arith)
                requires
                    wv == wpv + pm * t,
                    wvp == (wv * pr) as int,
                    pmi == pm as int,
            ;
        }
        // The quotient modulo the base is exactly the new top limb.
        let td = t / pow2(mn);
        let tm = t % pow2(mn);
        assert(t == pow2(mn) * td + tm) by {
            lemma_fundamental_div_mod(t as int, pow2(mn) as int);
        }
        assert(base() == pow2(mn) * pr) by {
            lemma_pow2_adds(mn, rn);
        }
        assert(t * pr == base() * td + tm * pr) by (nonlinear_arith)
            requires
                t == pow2(mn) * td + tm,
                base() == pow2(mn) * pr,
        ;
        assert(q < pr) by {
            lemma_multiply_divide_lt(w[m - 1] as int, pow2(mn) as int, pr as int);
            assert(w[m - 1] < pow2(mn) * pr);
        }
        assert(tm * pr + q < base()) by (nonlinear_arith)
            requires
                tm < pow2(mn),
                q < pr,
                base() == pow2(mn) * pr,
                pr > 0,
        ;
        assert(((q + t * pr) as int) % bi == (tm * pr + q) as int) by {
            lemma_mod_multiples_vanish(td as int, (tm * pr + q) as int, bi);
            lemma_small_mod((tm * pr + q) as nat, base());
        }
        assert(z[m] as nat == tm * pr + q) by {
            lemma_shl_word(w[m], r);
            let hh: u64 = w[m];
            let ll: u64 = w[m - 1];
            let hi: u64 = hh << r;
            let lo: u64 = ll >> mword;
            assert(z[m] == (hi | lo));
            assert((hi | lo) as nat == hi as nat + lo as nat) by (bit_vector)
                requires
                    0 < r < 64,
                    mword == 64 - r,
                    hi == hh << r,
                    lo == ll >> mword,
            ;
        }
        assert(to_nat(z) as int == wvp % (pmi * bi));
        assert(pn as int == pmi * bi);
    }
}


/// The in-place left-shift word recurrence multiplies the denoted value by
/// 2^(64 d + r), modulo the buffer's capacity.
proof fn lemma_shl_value(x: Seq<u64>, y: Seq<u64>, d: int, r: u64)
    requires
        x.len() == y.len(),
        0 <= d < x.len(),
        r < 64,
        forall|i: int| 0 <= i < d ==> y[i] == 0,
        y[d] == (x[0] << r),
        forall|i: int|
            d < i < y.len() ==> y[i] == ((x[i - d] << r) | (if r == 0 {
                0u64
            } else {
                x[i - d - 1] >> ((64 - r) as u64)
            })),
    ensures
        to_nat(y) == (to_nat(x) * pow2((64 * d + r) as nat)) % pow2((64 * x.len()) as nat),
{
    let n = x.len() as int;
    let m = n - d;
    let w = x.take(m);
    let z = y.skip(d);
    let pm = pow2((64 * m) as nat);
    let pd = pow2((64 * d) as nat);
    let pn = pow2((64 * n) as nat);
    let pr = pow2(r as nat);
    lemma_pow2_pos((64 * m) as nat);
    lemma_pow2_pos((64 * d) as nat);
    lemma_pow2_pos((64 * n) as nat);
    lemma_pow2_pos(r as nat);
    let wv = to_nat(w);
    assert(z.len() == m && w.len() == m);
    assert(z[0] == (w[0] << r));
    assert(forall|j: int|
        1 <= j < m ==> z[j] == ((w[j] << r) | (if r == 0 {
            0u64
        } else {
            w[j - 1] >> ((64 - r) as u64)
        }))) by {
        assert(forall|j: int| 1 <= j < m ==> z[j] == y[j + d]);
        assert(forall|j: int| 0 <= j < m ==> w[j] == x[j]);
    }
    if r == 0 {
        assert(forall|v: u64| #[trigger] (v << 0u64) == v) by (bit_vector);
        assert(forall|v: u64| #[trigger] (v | 0u64) == v) by (bit_vector);
        assert(z =~= w);
        lemma_to_nat_bound(w);
        lemma2_to64();
        lemma_small_mod(wv, pm);
        assert(wv * pr == wv) by {
            lemma_mul_basics(wv as int);
        }
        assert(to_nat(z) == (wv * pr) % pm);
    } else {
        lemma_shl_bits(w, z, r);
        assert(to_nat(z) == (wv * pr) % pm);
    }
    lemma_to_nat_split(y, d);
    lemma_to_nat_zero(y.take(d));
    assert(y.take(d).len() == d);
    assert(to_nat(y) == pd * to_nat(z));
    lemma_to_nat_split(x, m);
    let hv = to_nat(x.skip(m));
    assert(to_nat(x) == wv + pm * hv);
    let ps = pow2((64 * d + r) as nat);
    assert(pn == pd * pm) by {
        lemma_pow2_adds((64 * d) as nat, (64 * m) as nat);
        assert((64 * d) as nat + (64 * m) as nat == (64 * n) as nat);
    }
    assert(ps == pd * pr) by {
        lemma_pow2_adds((64 * d) as nat, r as nat);
    }
    assert(to_nat(x) * ps == pd * (wv * pr) + pn * (hv * pr)) by (nonlinear_arith)
        requires
            to_nat(x) == wv + pm * hv,
            ps == pd * pr,
            pn == pd * pm,
    ;
    assert((pd * (wv * pr) + pn * (hv * pr)) % pn == (pd * (wv * pr)) % pn) by {
        lemma_mod_multiples_vanish((hv * pr) as int, (pd * (wv * pr)) as int, pn as int);
    }
    assert((pd * (wv * pr)) % (pd * pm) == pd * ((wv * pr) % pm)) by {
        lemma_truncate_middle((wv * pr) as int, pd as int, pm as int);
    }
}

/// Shifts `a` left in place by `shift` bits, crossing limb boundaries; bits
/// pushed past the top limb are discarded, so the value is multiplied by
/// 2^shift modulo the buffer's capacity.
pub fn shl(a: &mut Vec<u64>, shift: usize)
    requires
        shift < 64 * old(a).len(),
    ensures
        final(a).len() == old(a).len(),
        to_nat(final(a)@) == (to_nat(old(a)@) * pow2(shift as nat)) % pow2(
            (64 * old(a).len()) as nat,
        ),
{
    let len = a.len();
    if shift == 0 {
        proof {
            lemma_to_nat_bound(a@);
            lemma2_to64();
            lemma_pow2_pos((64 * len) as nat);
            lemma_small_mod(to_nat(a@), pow2((64 * len) as nat));
            lemma_mul_basics(to_nat(a@) as int);
        }
        return;
    }
    let d: usize = shift / 64;
    let r: u64 = (shift % 64) as u64;
    proof {
        lemma_fundamental_div_mod(shift as int, 64);
        assert(d < len);
    }
    let mut idx: usize = len;
    while idx > d + 1
        invariant
            len == a.len(),
            a.len() == old(a).len(),
            d == shift / 64,
            r == (shift % 64) as u64,
            r < 64,
            d < len,
            d + 1 <= idx <= len,
            forall|j: int| 0 <= j < idx ==> a@[j] == old(a)@[j],
            forall|j: int|
                idx <= j < len ==> a@[j] == ((old(a)@[j - d] << r) | (if r == 0 {
                    0u64
                } else {
                    old(a)@[j - d - 1] >> ((64 - r) as u64)
                })),
        decreases idx,
    {
        idx -= 1;
        let high_bits = a[idx - d] << r;
        let low_bits = if r == 0 {
            0u64
        } else {
            a[idx - d - 1] >> (64 - r)
        };
        a[idx] = high_bits | low_bits;
    }
    // The limb at the edge takes only the shifted lowest source limb.
    let boundary = a[0] << r;
    a[d] = boundary;
    let mut k: usize = 0;
    while k < d
        invariant
            len == a.len(),
            a.len() == old(a).len(),
            d == shift / 64,
            r == (shift % 64) as u64,
            r < 64,
            d < len,
            0 <= k <= d,
            a@[d as int] == (old(a)@[0] << r),
            forall|j: int|
                d < j < len ==> a@[j] == ((old(a)@[j - d] << r) | (if r == 0 {
                    0u64
                } else {
                    old(a)@[j - d - 1] >> ((64 - r) as u64)
                })),
            forall|j: int| 0 <= j < k ==> a@[j] == 0,
        decreases d - k,
    {
        a[k] = 0;
        k += 1;
    }
    proof {
        lemma_shl_value(old(a)@, a@, d as int, r);
        assert((64 * d + r) as nat == shift as nat);
    }
}

/// Copies `a` into `out` and shifts the copy left by `shift` bits.
pub fn shl_to(a: &Vec<u64>, out: &mut Vec<u64>, shift: usize)
    requires
        old(out).len() == a.len(),
        shift < 64 * a.len(),
    ensures
        final(out).len() == a.len(),
        to_nat(final(out)@) == (to_nat(a@) * pow2(shift as nat)) % pow2((64 * a.len()) as nat),
{
    let len = a.len();
    let mut i: usize = 0;
    while i < len
        invariant
            len == a.len(),
            out.len() == a.len(),
            0 <= i <= len,
            forall|j: int| 0 <= j < i ==> out@[j] == a@[j],
        decreases len - i,
    {
        let v = a[i];
        out[i] = v;
        i += 1;
    }
    assert(out@ =~= a@);
    shl(out, shift);
}

/// Shifting the limbs of `w` right by r bits inside the buffer divides the
/// denoted value by 2^r.
proof fn lemma_shr_bits(w: Seq<u64>, z: Seq<u64>, r: u64)
    requires
        w.len() == z.len(),
        w.len() >= 1,
        0 < r < 64,
        forall|j: int|
            0 <= j < z.len() - 1 ==> z[j] == ((w[j + 1] << ((64 - r) as u64)) | (w[j] >> r)),
        z[z.len() - 1] == w[w.len() - 1] >> r,
    ensures
        to_nat(z) == to_nat(w) / pow2(r as nat),
    decreases w.len(),
{
    lemma_base_is_pow2_64();
    let rn = r as nat;
    let mn = (64 - r) as nat;
    let mword: u64 = (64 - r) as u64;
    let pr = pow2(rn);
    lemma_pow2_pos(rn);
    lemma_pow2_pos(mn);
    lemma_shr_word(w[0], r);
    if w.len() == 1 {
        assert(z.drop_first().len() == 0);
        assert(to_nat(z.drop_first()) == 0);
        assert(to_nat(z) == z[0] as nat);
        assert(to_nat(w) == w[0] as nat) by {
            assert(to_nat(w.drop_first()) == 0);
        }
    } else {
        let wp = w.drop_first();
        let zp = z.drop_first();
        assert(forall|j: int|
            0 <= j < zp.len() - 1 ==> zp[j] == ((wp[j + 1] << mword) | (wp[j] >> r))) by {
            assert(forall|j: int| 0 <= j < zp.len() ==> zp[j] == z[j + 1]);
            assert(forall|j: int| 0 <= j < wp.len() ==> wp[j] == w[j + 1]);
        }
        assert(zp[zp.len() - 1] == wp[wp.len() - 1] >> r);
        lemma_shr_bits(wp, zp, r);
        let wpv = to_nat(wp);
        let s = wpv % pr;
        let qq = wpv / pr;
        lemma_fundamental_div_mod(wpv as int, pr as int);
        assert(wpv == pr * qq + s);
        assert(base() == pow2(mn) * pr) by {
            lemma_pow2_adds(mn, rn);
        }
        let w0 = w[0] as nat;
        let w1 = w[1] as nat;
        // The whole value, divided by 2^r, hoisting the exact multiples out.
        assert(to_nat(w) == w0 + base() * wpv);
        assert(w0 + base() * wpv == (w0 + (pow2(mn) * s) * pr) + (base() * qq) * pr)
            by (nonlinear_arith)
            requires
                wpv == pr * qq + s,
                base() == pow2(mn) * pr,
        ;
        assert((w0 + (pow2(mn) * s) * pr) as int / pr as int == w0 as int / pr as int + pow2(mn)
            * s) by {
            lemma_hoist_over_denominator(w0 as int, (pow2(mn) * s) as int, pr as nat);
        }
        assert(to_nat(w) as int / pr as int == w0 as int / pr as int + pow2(mn) * s + base() * qq)
            by {
            lemma_hoist_over_denominator(
                (w0 + (pow2(mn) * s) * pr) as int,
                (base() * qq) as int,
                pr as nat,
            );
        }
        // The lowest result limb carries the spill of the limb above it.
        assert(z[0] as nat == (w1 % pr) * pow2(mn) + w0 / pr) by {
            lemma_shl_word(w[1], mword);
            let hh: u64 = w[1];
            let ll: u64 = w[0];
            let hi: u64 = hh << mword;
            let lo: u64 = ll >> r;
            assert(z[0] == (hi | lo));
            assert((hi | lo) as nat == hi as nat + lo as nat) by (bit_vector)
                requires
                    0 < r < 64,
                    mword == 64 - r,
                    hi == hh << mword,
                    lo == ll >> r,
            ;
            assert((64 - mword) as nat == rn);
        }
        assert(w1 % pr == s) by {
            let rest = to_nat(wp.drop_first());
            assert(wpv == w1 + base() * rest);
            assert(wpv as int == pr as int * ((pow2(mn) * rest) as int) + w1 as int)
                by (nonlinear_arith)
                requires
                    wpv == w1 + base() * rest,
                    base() == pow2(mn) * pr,
            ;
            lemma_mod_multiples_vanish((pow2(mn) * rest) as int, w1 as int, pr as int);
            assert(wpv as int % pr as int == w1 as int % pr as int);
        }
        assert((w1 % pr) * pow2(mn) == pow2(mn) * s) by {
            lemma_mul_is_commutative((w1 % pr) as int, pow2(mn) as int);
        }
        assert(to_nat(z) == z[0] as nat + base() * to_nat(zp));
    }
}

/// The in-place right-shift word recurrence divides the denoted value by
/// 2^(64 d + r).
proof fn lemma_shr_value(x: Seq<u64>, y: Seq<u64>, d: int, r: u64)
    requires
        x.len() == y.len(),
        0 <= d < x.len(),
        r < 64,
        forall|i: int|
            0 <= i < x.len() - d - 1 ==> y[i] == ((if r == 0 {
                0u64
            } else {
                x[i + d + 1] << ((64 - r) as u64)
            }) | (x[i + d] >> r)),
        y[x.len() - d - 1] == x[x.len() - 1] >> r,
        forall|i: int| x.len() - d <= i < y.len() ==> y[i] == 0,
    ensures
        to_nat(y) == to_nat(x) / pow2((64 * d + r) as nat),
{
    let n = x.len() as int;
    let m = n - d;
    let w = x.skip(d);
    let z = y.take(m);
    let pm = pow2((64 * m) as nat);
    let pd = pow2((64 * d) as nat);
    let pr = pow2(r as nat);
    lemma_pow2_pos((64 * m) as nat);
    lemma_pow2_pos((64 * d) as nat);
    lemma_pow2_pos(r as nat);
    assert(z.len() == m && w.len() == m);
    assert(forall|j: int| 0 <= j < m ==> z[j] == y[j]);
    assert(forall|j: int| 0 <= j < m ==> w[j] == x[j + d]);
    let wv = to_nat(w);
    if r == 0 {
        assert(forall|v: u64| #[trigger] (v >> 0u64) == v) by (bit_vector);
        assert(forall|v: u64| #[trigger] (0u64 | v) == v) by (bit_vector);
        assert(z =~= w);
        lemma2_to64();
        lemma_div_basics(wv as int);
        assert(to_nat(z) == wv / pr);
    } else {
        assert(z[m - 1] == w[m - 1] >> r);
        assert(forall|j: int| 0 <= j < m - 1 ==> z[j] == ((w[j + 1] << ((64 - r) as u64)) | (w[j]
            >> r)));
        lemma_shr_bits(w, z, r);
        assert(to_nat(z) == wv / pr);
    }
    lemma_to_nat_split(y, m);
    lemma_to_nat_zero(y.skip(m));
    assert(to_nat(y) == to_nat(z)) by {
        lemma_mul_basics(pm as int);
    }
    lemma_to_nat_split(x, d);
    let tv = to_nat(x.take(d));
    lemma_to_nat_bound(x.take(d));
    assert(x.take(d).len() == d);
    assert(to_nat(x) == tv + pd * wv);
    assert(to_nat(x) as int / pd as int == wv as int) by {
        lemma_fundamental_div_mod_converse(to_nat(x) as int, pd as int, wv as int, tv as int);
    }
    let ps = pow2((64 * d + r) as nat);
    assert(ps == pd * pr) by {
        lemma_pow2_adds((64 * d) as nat, r as nat);
    }
    assert(to_nat(x) as int / ps as int == (to_nat(x) as int / pd as int) / pr as int) by {
        lemma_div_denominator(to_nat(x) as int, pd as int, pr as int);
    }
}

/// Shifts `a` right in place by `shift` bits, crossing limb boundaries; the
/// value is divided by 2^shift, rounding down.
pub fn shr(a: &mut Vec<u64>, shift: usize)
    requires
        shift < 64 * old(a).len(),
    ensures
        final(a).len() == old(a).len(),
        to_nat(final(a)@) == to_nat(old(a)@) / pow2(shift as nat),
{
    let len = a.len();
    if shift == 0 {
        proof {
            lemma2_to64();
            lemma_div_basics(to_nat(a@) as int);
        }
        return;
    }
    let d: usize = shift / 64;
    let r: u64 = (shift % 64) as u64;
    proof {
        lemma_fundamental_div_mod(shift as int, 64);
        assert(d < len);
    }
    let last: usize = len - 1 - d;
    let mut idx: usize = 0;
    while idx < last
        invariant
            len == a.len(),
            a.len() == old(a).len(),
            d == shift / 64,
            r == (shift % 64) as u64,
            r < 64,
            d < len,
            last == len - 1 - d,
            0 <= idx <= last,
            forall|j: int| idx <= j < len ==> a@[j] == old(a)@[j],
            forall|j: int|
                0 <= j < idx ==> a@[j] == ((if r == 0 {
                    0u64
                } else {
                    old(a)@[j + d + 1] << ((64 - r) as u64)
                }) | (old(a)@[j + d] >> r)),
        decreases last - idx,
    {
        let low_bits = a[idx + d] >> r;
        let high_bits = if r == 0 {
            0u64
        } else {
            a[idx + d + 1] << (64 - r)
        };
        a[idx] = high_bits | low_bits;
        idx += 1;
    }
    // The topmost surviving limb takes only the shifted top source limb.
    let top = a[len - 1] >> r;
    a[last] = top;
    let mut k: usize = last + 1;
    while k < len
        invariant
            len == a.len(),
            a.len() == old(a).len(),
            d == shift / 64,
            r == (shift % 64) as u64,
            r < 64,
            d < len,
            last == len - 1 - d,
            last + 1 <= k <= len,
            a@[last as int] == (old(a)@[len - 1] >> r),
            forall|j: int|
                0 <= j < last ==> a@[j] == ((if r == 0 {
                    0u64
                } else {
                    old(a)@[j + d + 1] << ((64 - r) as u64)
                }) | (old(a)@[j + d] >> r)),
            forall|j: int| last < j < k ==> a@[j] == 0,
        decreases len - k,
    {
        a[k] = 0;
        k += 1;
    }
    proof {
        lemma_shr_value(old(a)@, a@, d as int, r);
        assert((64 * d + r) as nat == shift as nat);
    }
}


/// Bounds on one limb from its count of leading zero bits.
proof fn lemma_word_msb(v: u64)
    ensures
        0 <= vstd::std_specs::bits::u64_leading_zeros(v) <= 64,
        v == 0 <==> vstd::std_specs::bits::u64_leading_zeros(v) == 64,
        (v as nat) < pow2((64 - vstd::std_specs::bits::u64_leading_zeros(v)) as nat),
        vstd::std_specs::bits::u64_leading_zeros(v) < 64 ==> (v as nat) >= pow2(
            (63 - vstd::std_specs::bits::u64_leading_zeros(v)) as nat,
        ),
{
    vstd::std_specs::bits::axiom_u64_leading_zeros(v);
    let lz = vstd::std_specs::bits::u64_leading_zeros(v);
    let x = 64 - lz;
    if lz == 64 {
        assert(v == 0);
        lemma_pow2_pos(0);
    } else {
        // Everything at or above bit x is clear, so v < 2^x.
        assert(v >> (x as u64) == 0);
        if x < 64 {
            vstd::bits::lemma_u64_shr_is_div(v, x as u64);
            lemma_pow2_pos(x as nat);
            lemma_fundamental_div_mod(v as int, pow2(x as nat) as int);
            lemma_mod_division_less_than_divisor(v as int, pow2(x as nat) as int);
        } else {
            lemma2_to64();
        }
        // The bit just below x is set, so v >= 2^(x-1).
        let y = (v >> ((x - 1) as u64));
        assert(y & 1u64 != 0u64);
        assert(y != 0) by (bit_vector)
            requires
                y & 1u64 != 0u64,
        ;
        vstd::bits::lemma_u64_shr_is_div(v, (x - 1) as u64);
        lemma_pow2_pos((x - 1) as nat);
        lemma_fundamental_div_mod(v as int, pow2((x - 1) as nat) as int);
        lemma_mod_division_less_than_divisor(v as int, pow2((x - 1) as nat) as int);
        assert((v as nat) / pow2((x - 1) as nat) >= 1);
        assert(v as int >= pow2((x - 1) as nat) as int * 1) by (nonlinear_arith)
            requires
                v as int == pow2((x - 1) as nat) * ((v as nat) / pow2((x - 1) as nat)) + (
                v as nat) % pow2((x - 1) as nat),
                (v as nat) / pow2((x - 1) as nat) >= 1,
                (v as nat) % pow2((x - 1) as nat) >= 0,
                pow2((x - 1) as nat) > 0,
        ;
    }
}

/// The 1-based bit position of the highest set bit across the whole buffer,
/// or 0 when the buffer denotes zero.
pub fn get_msb_idx(a: &Vec<u64>) -> (r: usize)
    requires
        64 * a.len() <= usize::MAX,
    ensures
        r <= 64 * a.len(),
        r == 0 ==> to_nat(a@) == 0,
        r > 0 ==> pow2((r - 1) as nat) <= to_nat(a@) < pow2(r as nat),
{
    let len = a.len();
    let mut idx: usize = 0;
    let mut i: usize = 0;
    proof {
        lemma_pow2_pos(0);
    }
    while i < len
        invariant
            len == a.len(),
            64 * a.len() <= usize::MAX,
            0 <= i <= len,
            idx <= 64 * i,
            idx == 0 ==> to_nat(a@.take(i as int)) == 0,
            idx > 0 ==> pow2((idx - 1) as nat) <= to_nat(a@.take(i as int)) < pow2(idx as nat),
        decreases len - i,
    {
        let val = a[i];
        let lz = val.leading_zeros();
        let x: usize = (64 - lz) as usize;
        proof {
            lemma_word_msb(val);
            lemma_to_nat_take_succ(a@, i as int);
            lemma_to_nat_bound(a@.take(i as int));
            assert(a@.take(i as int).len() == i);
            let prev = to_nat(a@.take(i as int));
            let p = pow2((64 * i) as nat);
            if x == 0 {
                assert(val == 0);
                assert(to_nat(a@.take(i as int + 1)) == prev);
                if idx > 0 {
                    lemma_pow2_strictly_increases(idx as nat, (64 * (i + 1)) as nat);
                }
            } else {
                // The new top limb dominates everything below it.
                lemma_pow2_adds((64 * i) as nat, (x - 1) as nat);
                lemma_pow2_adds((64 * i) as nat, x as nat);
                assert(p * (val as nat) >= p * pow2((x - 1) as nat)) by (nonlinear_arith)
                    requires
                        (val as nat) >= pow2((x - 1) as nat),
                        p > 0,
                ;
                assert(prev + p * (val as nat) < p * pow2(x as nat)) by (nonlinear_arith)
                    requires
                        prev < p,
                        (val as nat) < pow2(x as nat),
                        p > 0,
                ;
            }
        }
        if x != 0 {
            idx = i * 64 + x;
        }
        i += 1;
    }
    proof {
        assert(a@.take(len as int) =~= a@);
    }
    idx
}

/// Whether a limb count is a power of two, as the halving recursion needs.
pub open spec fn pow2_length(n: nat) -> bool
    decreases n,
{
    if n == 0 {
        false
    } else if n == 1 {
        true
    } else {
        n % 2 == 0 && pow2_length(n / 2)
    }
}

/// Multiplies two limbs into a double-width (low, high) pair via half-width
/// partial products.
pub fn mul_ints(a: u64, b: u64) -> (r: (u64, u64))
    ensures
        r.0 as nat + base() * (r.1 as nat) == a as nat * b as nat,
{
    let a1 = a >> 32;
    let a0 = a & 0xffff_ffff;
    let b1 = b >> 32;
    let b0 = b & 0xffff_ffff;
    proof {
        assert((a0 as nat) + 0x1_0000_0000 * (a1 as nat) == a as nat && a0 < 0x1_0000_0000u64
            && a1 < 0x1_0000_0000u64) by (bit_vector)
            requires
                a1 == a >> 32,
                a0 == a & 0xffff_ffff,
        ;
        assert((b0 as nat) + 0x1_0000_0000 * (b1 as nat) == b as nat && b0 < 0x1_0000_0000u64
            && b1 < 0x1_0000_0000u64) by (bit_vector)
            requires
                b1 == b >> 32,
                b0 == b & 0xffff_ffff,
        ;
        assert(a0 as nat * b0 as nat <= 0xffff_ffff * 0xffff_ffff && a0 as nat * b1 as nat
            <= 0xffff_ffff * 0xffff_ffff && a1 as nat * b0 as nat <= 0xffff_ffff * 0xffff_ffff
            && a1 as nat * b1 as nat <= 0xffff_ffff * 0xffff_ffff) by (nonlinear_arith)
            requires
                a0 < 0x1_0000_0000u64,
                a1 < 0x1_0000_0000u64,
                b0 < 0x1_0000_0000u64,
                b1 < 0x1_0000_0000u64,
        ;
    }
    let z0 = a0 * b0;
    let m1 = a0 * b1;
    let m2 = a1 * b0;
    let z1 = m1.wrapping_add(m2);
    let overflow = z1 < m1;
    let z2 = if overflow {
        a1 * b1 + 0x1_0000_0000
    } else {
        a1 * b1
    };
    let zl = z1 << 32u64;
    let low_bits = z0.wrapping_add(zl);
    let overflow2 = low_bits < z0;
    let zh = z1 >> 32u64;
    proof {
        lemma_base_is_pow2_64();
        lemma2_to64();
        lemma_shl_word(z1, 32);
        lemma_shr_word(z1, 32);
        assert(pow2(32) == 0x1_0000_0000);
        let h: nat = 0x1_0000_0000;
        let ov: nat = if overflow {
            1
        } else {
            0
        };
        let ov2: nat = if overflow2 {
            1
        } else {
            0
        };
        assert(z1 as nat + ov * base() == m1 as nat + m2 as nat);
        assert(z2 as nat == a1 as nat * b1 as nat + ov * h);
        assert(zl as nat == (z1 as nat % h) * h);
        assert(zh as nat == z1 as nat / h);
        assert(low_bits as nat + ov2 * base() == z0 as nat + zl as nat);
        lemma_fundamental_div_mod(z1 as int, h as int);
        let pp: nat = a as nat * b as nat;
        let a0n: nat = a0 as nat;
        let a1n: nat = a1 as nat;
        let b0n: nat = b0 as nat;
        let b1n: nat = b1 as nat;
        let z0n: nat = z0 as nat;
        let m1n: nat = m1 as nat;
        let m2n: nat = m2 as nat;
        let z1n: nat = z1 as nat;
        let z2n: nat = z2 as nat;
        let zln: nat = zl as nat;
        let zhn: nat = zh as nat;
        let lown: nat = low_bits as nat;
        let bb: nat = base();
        // Reassemble the four partial products into the double-width value.
        assert(pp == (a0n + h * a1n) * (b0n + h * b1n));
        assert((a0n + h * a1n) * (b0n + h * b1n) == a0n * b0n + h * (a0n * b1n) + h * (a1n * b0n)
            + (h * h) * (a1n * b1n)) by (nonlinear_arith);
        assert(pp == z0n + h * (m1n + m2n) + (h * h) * (a1n * b1n)) by (nonlinear_arith)
            requires
                z0n == a0n * b0n,
                m1n == a0n * b1n,
                m2n == a1n * b0n,
                pp == a0n * b0n + h * (a0n * b1n) + h * (a1n * b0n) + (h * h) * (a1n * b1n),
        ;
        assert(h * (m1n + m2n) == h * z1n + ov * (h * bb)) by (nonlinear_arith)
            requires
                z1n + ov * bb == m1n + m2n,
        ;
        assert(h * z1n == bb * zhn + zln) by (nonlinear_arith)
            requires
                z1n == h * zhn + z1n % h,
                zln == (z1n % h) * h,
                bb == h * h,
        ;
        assert((h * h) * (a1n * b1n) + ov * (h * bb) == bb * z2n) by (nonlinear_arith)
            requires
                z2n == a1n * b1n + ov * h,
                bb == h * h,
        ;
        assert(pp == lown + ov2 * bb + bb * zhn + bb * z2n);
        assert(lown + ov2 * bb + bb * zhn + bb * z2n == lown + bb * (z2n + zhn + ov2))
            by (nonlinear_arith);
        assert(low_bits as nat + base() * (z2 as nat + zh as nat + ov2) == a as nat * b as nat);
        assert(z2 as nat + zh as nat + ov2 < base()) by (nonlinear_arith)
            requires
                low_bits as nat + base() * (z2 as nat + zh as nat + ov2) == a as nat * b as nat,
                a as nat * b as nat <= (base() - 1) * (base() - 1),
                base() > 1,
        ;
        assert(a as nat * b as nat <= (base() - 1) * (base() - 1)) by (nonlinear_arith)
            requires
                a as nat <= base() - 1,
                b as nat <= base() - 1,
        ;
    }
    let high_bits = if overflow2 {
        z2 + zh + 1
    } else {
        z2 + zh
    };
    (low_bits, high_bits)
}


/// Copies the limbs of `v` in positions `from..to` into a fresh buffer.
pub(crate) fn subrange_vec(v: &Vec<u64>, from: usize, to: usize) -> (r: Vec<u64>)
    requires
        from <= to <= v.len(),
    ensures
        r@ == v@.subrange(from as int, to as int),
{
    let mut r: Vec<u64> = Vec::new();
    let mut i: usize = from;
    while i < to
        invariant
            from <= i <= to <= v.len(),
            r@ =~= v@.subrange(from as int, i as int),
        decreases to - i,
    {
        r.push(v[i]);
        i += 1;
    }
    assert(r@ =~= v@.subrange(from as int, to as int));
    r
}


/// The four-way expansion of a product of two split values.
proof fn lemma_split_product(x0: nat, x1: nat, y0: nat, y1: nat, h: nat)
    ensures
        (x0 + h * x1) * (y0 + h * y1) == x0 * y0 + h * (x0 * y1) + h * (x1 * y0) + (h * h) * (x1
            * y1),
{
    assert((x0 + h * x1) * (y0 + h * y1) == x0 * y0 + x0 * (h * y1) + (h * x1) * y0 + (h * x1) * (
    h * y1)) by (nonlinear_arith);
    assert(x0 * (h * y1) == h * (x0 * y1)) by (nonlinear_arith);
    assert((h * x1) * y0 == h * (x1 * y0)) by (nonlinear_arith);
    assert((h * x1) * (h * y1) == (h * h) * (x1 * y1)) by (nonlinear_arith);
}

/// Multiplies equal power-of-two-length buffers into the full double-width
/// product, returned as (low half, high half), by recursive splitting.
pub fn mul_full(a: &Vec<u64>, b: &Vec<u64>) -> (r: (Vec<u64>, Vec<u64>))
    requires
        a.len() == b.len(),
        pow2_length(a.len() as nat),
    ensures
        r.0.len() == a.len(),
        r.1.len() == a.len(),
        to_nat(r.0@) + pow2((64 * a.len()) as nat) * to_nat(r.1@) == to_nat(a@) * to_nat(b@),
    decreases a.len(), 0int,
{
    let n = a.len();
    if n == 1 {
        let (low, high) = mul_ints(a[0], b[0]);
        let rl = vec![low];
        let rh = vec![high];
        proof {
            lemma_base_is_pow2_64();
            assert(to_nat(rl@.drop_first()) == 0);
            assert(to_nat(rh@.drop_first()) == 0);
            assert(to_nat(rl@) == low as nat);
            assert(to_nat(rh@) == high as nat);
            assert(to_nat(a@.drop_first()) == 0);
            assert(to_nat(b@.drop_first()) == 0);
            assert(to_nat(a@) == a@[0] as nat);
            assert(to_nat(b@) == b@[0] as nat);
        }
        return (rl, rh);
    }
    proof {
        assert(n % 2 == 0 && pow2_length((n / 2) as nat));
    }
    let half = n / 2;
    let a0 = subrange_vec(a, 0, half);
    let a1 = subrange_vec(a, half, n);
    let b0 = subrange_vec(b, 0, half);
    let b1 = subrange_vec(b, half, n);
    proof {
        assert(a0@ =~= a@.take(half as int));
        assert(a1@ =~= a@.skip(half as int));
        assert(b0@ =~= b@.take(half as int));
        assert(b1@ =~= b@.skip(half as int));
        lemma_to_nat_split(a@, half as int);
        lemma_to_nat_split(b@, half as int);
    }
    let ghost hpow = pow2((64 * half) as nat);
    let ghost hh = pow2((64 * n) as nat);
    let ghost av0 = to_nat(a0@);
    let ghost av1 = to_nat(a1@);
    let ghost bv0 = to_nat(b0@);
    let ghost bv1 = to_nat(b1@);
    let z0 = mul_full_concat(&a0, &b0);
    let mut z1 = mul_full_concat(&a0, &b1);
    let m2 = mul_full_concat(&a1, &b0);
    let over = crate::arithmetic::add(&mut z1, &m2);
    let ghost z1mid = z1@;
    proof {
        assert(to_nat(z1mid) + (if over {
            hh
        } else {
            0nat
        }) == av0 * bv1 + av1 * bv0);
    }
    if over {
        z1.push(1);
        proof {
            assert(z1@ == z1mid.push(1u64));
            lemma_to_nat_push(z1mid, 1u64);
            assert(pow2((64 * z1mid.len()) as nat) == hh);
            lemma_mul_basics(hh as int);
            assert(to_nat(z1@) == to_nat(z1mid) + hh);
        }
    }
    let ghost z1v = to_nat(z1@);
    proof {
        assert(z1v == av0 * bv1 + av1 * bv0);
        assert(hpow * hpow == hh) by {
            lemma_pow2_adds((64 * half) as nat, (64 * half) as nat);
            assert((64 * half) as nat + (64 * half) as nat == (64 * n) as nat);
        }
    }
    let mut z2 = mul_full_concat(&a1, &b1);
    let low_mid = subrange_vec(&z1, 0, half);
    let high_mid = subrange_vec(&z1, half, z1.len());
    proof {
        assert(low_mid@ =~= z1@.take(half as int));
        assert(high_mid@ =~= z1@.skip(half as int));
        lemma_to_nat_split(z1@, half as int);
    }
    let ghost lm = to_nat(low_mid@);
    let ghost hm = to_nat(high_mid@);
    let mut low_result: Vec<u64> = Vec::new();
    let mut q: usize = 0;
    while q < half
        invariant
            low_result.len() == q,
            0 <= q <= half,
            forall|j: int| 0 <= j < q ==> low_result@[j] == 0,
        decreases half - q,
    {
        low_result.push(0);
        q += 1;
    }
    let mut q2: usize = 0;
    let lm_len = low_mid.len();
    while q2 < lm_len
        invariant
            lm_len == low_mid.len(),
            low_result.len() == half + q2,
            0 <= q2 <= lm_len,
            forall|j: int| 0 <= j < half ==> low_result@[j] == 0,
            forall|j: int| 0 <= j < q2 ==> low_result@[half + j] == low_mid@[j],
        decreases lm_len - q2,
    {
        let v = low_mid[q2];
        low_result.push(v);
        q2 += 1;
    }
    proof {
        assert(low_result@.take(half as int).len() == half);
        lemma_to_nat_split(low_result@, half as int);
        lemma_to_nat_zero(low_result@.take(half as int));
        assert(low_result@.skip(half as int) =~= low_mid@);
        assert(to_nat(low_result@) == hpow * lm);
    }
    let overflow = crate::arithmetic::add(&mut low_result, &z0);
    let ghost lrv = to_nat(low_result@);
    let carry2 = crate::arithmetic::add(&mut z2, &high_mid);
    let ghost z2v1 = to_nat(z2@);
    let one = vec![1u64];
    proof {
        assert(to_nat(one@.drop_first()) == 0);
        assert(to_nat(one@) == 1);
    }
    let carry3 = if overflow {
        crate::arithmetic::add(&mut z2, &one)
    } else {
        false
    };
    proof {
        let ovf: nat = if overflow {
            1
        } else {
            0
        };
        let c2: nat = if carry2 {
            1
        } else {
            0
        };
        let c3: nat = if carry3 {
            1
        } else {
            0
        };
        let av = to_nat(a@);
        let bv = to_nat(b@);
        let z0v = to_nat(z0@);
        let z2v = to_nat(z2@);
        // The four-way product expansion at the split point.
        assert(av * bv == (av0 + hpow * av1) * (bv0 + hpow * bv1));
        lemma_split_product(av0, av1, bv0, bv1, hpow);
        assert(hpow * (av0 * bv1) + hpow * (av1 * bv0) == hpow * z1v) by (nonlinear_arith)
            requires
                z1v == av0 * bv1 + av1 * bv0,
        ;
        assert(av * bv == z0v + hpow * z1v + hh * (av1 * bv1));
        // Fold the middle term through its split halves.
        assert(hpow * z1v == hpow * lm + hh * hm) by (nonlinear_arith)
            requires
                z1v == lm + hpow * hm,
                hh == hpow * hpow,
        ;
        // Carry accounting for the three in-place additions.
        assert(lrv + ovf * hh == hpow * lm + z0v);
        assert(z2v1 + c2 * hh == av1 * bv1 + hm);
        assert(z2v + c3 * hh == z2v1 + ovf);
        assert(av * bv == lrv + hh * z2v + (c2 + c3) * (hh * hh)) by (nonlinear_arith)
            requires
                av * bv == z0v + hpow * lm + hh * hm + hh * (av1 * bv1),
                lrv + ovf * hh == hpow * lm + z0v,
                z2v1 + c2 * hh == av1 * bv1 + hm,
                z2v + c3 * hh == z2v1 + ovf,
        ;
        lemma_to_nat_bound(a@);
        lemma_to_nat_bound(b@);
        assert(av * bv < hh * hh) by (nonlinear_arith)
            requires
                av < hh,
                bv < hh,
        ;
        assert(c2 + c3 == 0) by (nonlinear_arith)
            requires
                av * bv == lrv + hh * z2v + (c2 + c3) * (hh * hh),
                av * bv < hh * hh,
                lrv >= 0,
                z2v >= 0,
                hh >= 1,
        ;
    }
    (low_result, z2)
}

/// Multiplies equal power-of-two-length buffers into the full double-width
/// product as one buffer, low half first.
fn mul_full_concat(a: &Vec<u64>, b: &Vec<u64>) -> (r: Vec<u64>)
    requires
        a.len() == b.len(),
        pow2_length(a.len() as nat),
    ensures
        r.len() == 2 * a.len(),
        to_nat(r@) == to_nat(a@) * to_nat(b@),
    decreases a.len(), 1int,
{
    let (mut low, mut high) = mul_full(a, b);
    let ghost lows = low@;
    let ghost highs = high@;
    low.append(&mut high);
    proof {
        assert(low@ == lows + highs);
        lemma_to_nat_split(low@, a.len() as int);
        assert(low@.take(a.len() as int) =~= lows);
        assert(low@.skip(a.len() as int) =~= highs);
    }
    low
}


/// Multiplies equal power-of-two-length buffers, keeping only the low half
/// of the double-width product: the product modulo the buffer's capacity.
pub fn mul(a: &Vec<u64>, b: &Vec<u64>) -> (r: Vec<u64>)
    requires
        a.len() == b.len(),
        pow2_length(a.len() as nat),
    ensures
        r.len() == a.len(),
        to_nat(r@) == (to_nat(a@) * to_nat(b@)) % pow2((64 * a.len()) as nat),
    decreases a.len(),
{
    let n = a.len();
    if n == 1 {
        let (low, high) = mul_ints(a[0], b[0]);
        let rl = vec![low];
        proof {
            lemma_base_is_pow2_64();
            assert(to_nat(rl@.drop_first()) == 0);
            assert(to_nat(rl@) == low as nat);
            assert(to_nat(a@.drop_first()) == 0);
            assert(to_nat(b@.drop_first()) == 0);
            assert(to_nat(a@) == a@[0] as nat);
            assert(to_nat(b@) == b@[0] as nat);
            lemma_fundamental_div_mod_converse(
                (a@[0] as nat * b@[0] as nat) as int,
                base() as int,
                high as int,
                low as int,
            );
        }
        return rl;
    }
    proof {
        assert(n % 2 == 0 && pow2_length((n / 2) as nat));
    }
    let half = n / 2;
    let a0 = subrange_vec(a, 0, half);
    let a1 = subrange_vec(a, half, n);
    let b0 = subrange_vec(b, 0, half);
    let b1 = subrange_vec(b, half, n);
    proof {
        assert(a0@ =~= a@.take(half as int));
        assert(a1@ =~= a@.skip(half as int));
        assert(b0@ =~= b@.take(half as int));
        assert(b1@ =~= b@.skip(half as int));
        lemma_to_nat_split(a@, half as int);
        lemma_to_nat_split(b@, half as int);
    }
    let ghost hpow = pow2((64 * half) as nat);
    let ghost hh = pow2((64 * n) as nat);
    let ghost av0 = to_nat(a0@);
    let ghost av1 = to_nat(a1@);
    let ghost bv0 = to_nat(b0@);
    let ghost bv1 = to_nat(b1@);
    let (z0_low, mut z0_high) = mul_full(&a0, &b0);
    let ghost z0l = to_nat(z0_low@);
    let ghost z0h = to_nat(z0_high@);
    let mut z1 = crate::arithmetic::mul(&a0, &b1);
    let m2 = crate::arithmetic::mul(&a1, &b0);
    let c1 = crate::arithmetic::add(&mut z1, &m2);
    let ghost z1v = to_nat(z1@);
    let c2 = crate::arithmetic::add(&mut z0_high, &z1);
    let ghost z0h2 = to_nat(z0_high@);
    let mut r = z0_low;
    let ghost lows = r@;
    let ghost highs = z0_high@;
    r.append(&mut z0_high);
    proof {
        lemma_pow2_pos((64 * half) as nat);
        lemma_pow2_pos((64 * n) as nat);
        assert(hpow * hpow == hh) by {
            lemma_pow2_adds((64 * half) as nat, (64 * half) as nat);
            assert((64 * half) as nat + (64 * half) as nat == (64 * n) as nat);
        }
        assert(r@ == lows + highs);
        lemma_to_nat_split(r@, half as int);
        assert(r@.take(half as int) =~= lows);
        assert(r@.skip(half as int) =~= highs);
        assert(to_nat(r@) == z0l + hpow * z0h2);
        lemma_to_nat_bound(lows);
        lemma_to_nat_bound(highs);
        lemma_to_nat_bound(z1@);
        let av = to_nat(a@);
        let bv = to_nat(b@);
        let s = av0 * bv1 + av1 * bv0;
        let c1n: nat = if c1 {
            1
        } else {
            0
        };
        let c2n: nat = if c2 {
            1
        } else {
            0
        };
        // The middle limbs reduce modulo the half-width capacity.
        assert((av0 * bv1) % hpow + (av1 * bv0) % hpow == z1v + c1n * hpow);
        assert(s % hpow == z1v) by {
            lemma_add_mod_noop((av0 * bv1) as int, (av1 * bv0) as int, hpow as int);
            lemma_fundamental_div_mod_converse(
                ((av0 * bv1) % hpow + (av1 * bv0) % hpow) as int,
                hpow as int,
                c1n as int,
                z1v as int,
            );
            lemma_mod_twice(((av0 * bv1) % hpow + (av1 * bv0) % hpow) as int, hpow as int);
        }
        // The same reduction for the folded high half of z0.
        assert(z0h + z1v == z0h2 + c2n * hpow);
        assert((z0h + s % hpow) % hpow == z0h2) by {
            lemma_fundamental_div_mod_converse(
                (z0h + z1v) as int,
                hpow as int,
                c2n as int,
                z0h2 as int,
            );
        }
        assert((z0h + s) % hpow == z0h2) by {
            lemma_add_mod_noop_right(z0h as int, s as int, hpow as int);
        }
        // Expand the product and discard the multiples of the capacity.
        assert(av * bv == (av0 + hpow * av1) * (bv0 + hpow * bv1));
        lemma_split_product(av0, av1, bv0, bv1, hpow);
        assert(av * bv == av0 * bv0 + hpow * s + hh * (av1 * bv1)) by (nonlinear_arith)
            requires
                av * bv == av0 * bv0 + hpow * (av0 * bv1) + hpow * (av1 * bv0) + (hpow * hpow) * (
                av1 * bv1),
                s == av0 * bv1 + av1 * bv0,
                hh == hpow * hpow,
        ;
        assert((av * bv) % hh == (av0 * bv0 + hpow * s) % hh) by {
            assert(av * bv == hh * (av1 * bv1) + (av0 * bv0 + hpow * s));
            lemma_mod_multiples_vanish(
                (av1 * bv1) as int,
                (av0 * bv0 + hpow * s) as int,
                hh as int,
            );
        }
        assert(av0 * bv0 + hpow * s == z0l + hpow * (z0h + s)) by (nonlinear_arith)
            requires
                av0 * bv0 == z0l + hpow * z0h,
        ;
        let x = z0l + hpow * (z0h + s);
        assert(x % (hpow * hpow) == hpow * ((x as int / hpow as int) % hpow as int) + x % hpow)
            by {
            lemma_breakdown(x as int, hpow as int, hpow as int);
        }
        assert(x as int / hpow as int == (z0h + s) as int && x % hpow == z0l) by {
            lemma_mul_is_commutative((z0h + s) as int, hpow as int);
            lemma_fundamental_div_mod_converse(
                x as int,
                hpow as int,
                (z0h + s) as int,
                z0l as int,
            );
        }
        assert((av * bv) % hh == z0l + hpow * z0h2);
    }
    r
}


/// A value divisible by 2^bound has bit s clear and is divisible by 2^s,
/// for any s below bound.
proof fn lemma_div_bit_zero(q: nat, s: nat, bound: nat)
    requires
        s < bound,
        q % pow2(bound) == 0,
    ensures
        (q / pow2(s)) % 2 == 0,
        q % pow2(s) == 0,
{
    lemma_pow2_pos(bound);
    lemma_pow2_pos(s);
    lemma_pow2_pos((bound - s) as nat);
    lemma_pow2_pos((bound - s - 1) as nat);
    lemma_fundamental_div_mod(q as int, pow2(bound) as int);
    let k = q / pow2(bound);
    assert(q == pow2(bound) * k);
    assert(pow2(bound) == pow2(s) * pow2((bound - s) as nat)) by {
        lemma_pow2_adds(s, (bound - s) as nat);
    }
    assert(pow2((bound - s) as nat) == 2 * pow2((bound - s - 1) as nat)) by {
        lemma_pow2_adds(1, (bound - s - 1) as nat);
        lemma2_to64();
    }
    assert(q == pow2(s) * (pow2((bound - s) as nat) * k)) by (nonlinear_arith)
        requires
            q == pow2(bound) * k,
            pow2(bound) == pow2(s) * pow2((bound - s) as nat),
    ;
    assert(q / pow2(s) == pow2((bound - s) as nat) * k) by {
        lemma_div_by_multiple((pow2((bound - s) as nat) * k) as int, pow2(s) as int);
        lemma_mul_is_commutative((pow2((bound - s) as nat) * k) as int, pow2(s) as int);
    }
    assert(pow2((bound - s) as nat) * k == 2 * (pow2((bound - s - 1) as nat) * k))
        by (nonlinear_arith)
        requires
            pow2((bound - s) as nat) == 2 * pow2((bound - s - 1) as nat),
    ;
    assert((2 * (pow2((bound - s - 1) as nat) * k)) % 2 == 0) by {
        lemma_mod_multiples_basic((pow2((bound - s - 1) as nat) * k) as int, 2);
        lemma_mul_is_commutative((pow2((bound - s - 1) as nat) * k) as int, 2);
    }
    assert(q % pow2(s) == 0) by {
        lemma_mod_multiples_basic((pow2((bound - s) as nat) * k) as int, pow2(s) as int);
        lemma_mul_is_commutative((pow2((bound - s) as nat) * k) as int, pow2(s) as int);
    }
}

/// Sets bit `s` of the buffer. The bit must currently be clear — the value's
/// quotient by 2^s is even — so the value grows by exactly 2^s.
fn set_quot_bit(quot: &mut Vec<u64>, s: usize)
    requires
        s < 64 * old(quot).len(),
        (to_nat(old(quot)@) / pow2(s as nat)) % 2 == 0,
    ensures
        final(quot).len() == old(quot).len(),
        to_nat(final(quot)@) == to_nat(old(quot)@) + pow2(s as nat),
{
    let i = s / 64;
    let o = (s % 64) as u64;
    proof {
        lemma_fundamental_div_mod(s as int, 64);
        assert(i < quot.len());
    }
    let w = quot[i];
    let nw = w | (1u64 << o);
    proof {
        let qv = to_nat(quot@);
        let pi = pow2((64 * i) as nat);
        let po = pow2(o as nat);
        let ps = pow2(s as nat);
        lemma_pow2_pos((64 * i) as nat);
        lemma_pow2_pos(o as nat);
        lemma_base_is_pow2_64();
        lemma_to_nat_split(quot@, i as int);
        let t = to_nat(quot@.take(i as int));
        let sk = quot@.skip(i as int);
        assert(sk[0] == w);
        assert(sk.drop_first() =~= quot@.skip(i as int + 1));
        let rr = to_nat(quot@.skip(i as int + 1));
        assert(to_nat(sk) == w as nat + base() * rr);
        lemma_to_nat_bound(quot@.take(i as int));
        assert(quot@.take(i as int).len() == i);
        // The whole-buffer quotient by the limb weight.
        assert(qv as int / pi as int == w as nat + base() * rr) by {
            lemma_mul_is_commutative((w as nat + base() * rr) as int, pi as int);
            lemma_fundamental_div_mod_converse(
                qv as int,
                pi as int,
                (w as nat + base() * rr) as int,
                t as int,
            );
        }
        assert(ps == pi * po) by {
            lemma_pow2_adds((64 * i) as nat, o as nat);
        }
        assert(qv as int / ps as int == (qv as int / pi as int) / po as int) by {
            lemma_div_denominator(qv as int, pi as int, po as int);
        }
        // Divide the limb's view by 2^o, hoisting the higher limbs out.
        assert(base() == po * pow2((64 - o) as nat)) by {
            lemma_pow2_adds(o as nat, (64 - o) as nat);
        }
        assert(base() * rr == (rr * pow2((64 - o) as nat)) * po) by (nonlinear_arith)
            requires
                base() == po * pow2((64 - o) as nat),
        ;
        assert((w as nat + base() * rr) as int / po as int == w as nat / po as nat + rr * pow2(
            (64 - o) as nat,
        )) by {
            lemma_hoist_over_denominator(w as int, (rr * pow2((64 - o) as nat)) as int, po as nat);
        }
        // The parity of the limb's shifted view matches the whole value's.
        assert(pow2((64 - o) as nat) == 2 * pow2((63 - o) as nat)) by {
            lemma_pow2_adds(1, (63 - o) as nat);
            lemma2_to64();
        }
        assert((w as nat / po as nat + rr * pow2((64 - o) as nat)) % 2 == (w as nat / po as nat)
            % 2) by {
            lemma_mod_multiples_vanish(
                (rr * pow2((63 - o) as nat)) as int,
                (w as nat / po as nat) as int,
                2,
            );
            assert(rr * pow2((64 - o) as nat) == 2 * (rr * pow2((63 - o) as nat)))
                by (nonlinear_arith)
                requires
                    pow2((64 - o) as nat) == 2 * pow2((63 - o) as nat),
            ;
        }
        assert((w as nat / po as nat) % 2 == 0);
        lemma_shr_word(w, o);
        assert(((w >> o) as nat) % 2 == 0);
        let y = w >> o;
        assert(y & 1 == 0) by (bit_vector)
            requires
                y as nat % 2 == 0,
        ;
        lemma_one_shl(o);
        assert(nw as nat == w as nat + (1u64 << o) as nat) by (bit_vector)
            requires
                o < 64,
                (w >> o) & 1 == 0,
                nw == (w | (1u64 << o)),
        ;
        assert(nw as nat == w as nat + po);
        // Updating the limb adds 2^s to the value.
        lemma_to_nat_update(quot@, i as int, nw);
        assert(pi * (nw as nat) == pi * (w as nat) + ps) by (nonlinear_arith)
            requires
                nw as nat == w as nat + po,
                ps == pi * po,
        ;
    }
    quot[i] = nw;
}


/// Binary restoring long division guided by most-significant-bit positions:
/// fills `quot` and `rem` with the quotient and remainder of `a` by the
/// nonzero divisor `b`.
pub fn div_rem(a: &Vec<u64>, b: &Vec<u64>, quot: &mut Vec<u64>, rem: &mut Vec<u64>)
    requires
        a.len() == b.len(),
        old(quot).len() == a.len(),
        old(rem).len() == a.len(),
        to_nat(b@) > 0,
        64 * a.len() <= usize::MAX,
    ensures
        final(quot).len() == a.len(),
        final(rem).len() == a.len(),
        to_nat(b@) * to_nat(final(quot)@) + to_nat(final(rem)@) == to_nat(a@),
        to_nat(final(rem)@) < to_nat(b@),
{
    let len = a.len();
    let ghost av = to_nat(a@);
    let ghost bv = to_nat(b@);
    let mut i: usize = 0;
    while i < len
        invariant
            len == a.len(),
            rem.len() == len,
            0 <= i <= len,
            forall|j: int| 0 <= j < i ==> rem@[j] == a@[j],
        decreases len - i,
    {
        let v = a[i];
        rem[i] = v;
        i += 1;
    }
    proof {
        assert(rem@ =~= a@);
    }
    let b_msb_idx = get_msb_idx(b);
    proof {
        if b_msb_idx == 0 {
            assert(false);
        }
    }
    let mut k: usize = 0;
    while k < len
        invariant
            quot.len() == len,
            0 <= k <= len,
            forall|j: int| 0 <= j < k ==> quot@[j] == 0,
        decreases len - k,
    {
        quot[k] = 0;
        k += 1;
    }
    proof {
        lemma_to_nat_zero(quot@);
        lemma_to_nat_bound(a@);
        lemma_pow2_pos((64 * len) as nat);
        assert(av < bv * pow2((64 * len) as nat)) by (nonlinear_arith)
            requires
                av < pow2((64 * len) as nat),
                bv >= 1,
        ;
        assert(bv * 0 == 0) by (nonlinear_arith);
    }
    let mut shifted_b = subrange_vec(b, 0, len);
    let ghost mut bound: nat = (64 * len) as nat;
    loop
        invariant_except_break
            len == a.len(),
            a.len() == b.len(),
            rem.len() == len,
            quot.len() == len,
            shifted_b.len() == len,
            64 * len <= usize::MAX,
            av == to_nat(a@),
            bv == to_nat(b@),
            bv > 0,
            1 <= b_msb_idx <= 64 * len,
            pow2((b_msb_idx - 1) as nat) <= bv < pow2(b_msb_idx as nat),
            bv * to_nat(quot@) + to_nat(rem@) == av,
            to_nat(quot@) % pow2(bound) == 0,
            to_nat(rem@) < bv * pow2(bound),
            bound <= 64 * len,
        ensures
            rem.len() == len,
            quot.len() == len,
            bv * to_nat(quot@) + to_nat(rem@) == av,
            to_nat(rem@) < bv,
        decreases to_nat(rem@),
    {
        let ghost rem0 = to_nat(rem@);
        let ghost qv = to_nat(quot@);
        let order = cmp(b, rem);
        match order {
            Ordering::Equal => {
                // The remainder equals the divisor: one final quotient unit.
                proof {
                    if bound == 0 {
                        lemma2_to64();
                        lemma_mul_basics(bv as int);
                        assert(false);
                    }
                    lemma_div_bit_zero(qv, 0, bound);
                    lemma2_to64();
                    lemma_div_basics(qv as int);
                }
                set_quot_bit(quot, 0);
                let mut z: usize = 0;
                while z < len
                    invariant
                        rem.len() == len,
                        0 <= z <= len,
                        forall|j: int| 0 <= j < z ==> rem@[j] == 0,
                    decreases len - z,
                {
                    rem[z] = 0;
                    z += 1;
                }
                proof {
                    lemma_to_nat_zero(rem@);
                    lemma2_to64();
                    assert(to_nat(quot@) == qv + 1);
                    assert(bv * (qv + 1) == bv * qv + bv) by (nonlinear_arith);
                }
                break;
            },
            Ordering::Greater => {
                break;
            },
            Ordering::Less => {},
        }
        // Here the divisor is strictly below the remainder.
        assert(bv < rem0);
        let a_msb_idx = get_msb_idx(rem);
        proof {
            if a_msb_idx == 0 {
                assert(false);
            }
        }
        let shift_amount: usize = if a_msb_idx > b_msb_idx {
            a_msb_idx - b_msb_idx - 1
        } else {
            0
        };
        let s_used: usize;
        if a_msb_idx > b_msb_idx || b_msb_idx < 64 * len {
            proof {
                // The shifted divisor keeps its top bit inside the buffer.
                assert(b_msb_idx + shift_amount + 1 <= 64 * len);
                lemma_pow2_adds(b_msb_idx as nat, shift_amount as nat + 1);
                lemma_pow2_pos(shift_amount as nat + 1);
                assert(bv * pow2(shift_amount as nat + 1) < pow2(
                    b_msb_idx as nat + shift_amount as nat + 1,
                )) by (nonlinear_arith)
                    requires
                        bv < pow2(b_msb_idx as nat),
                        pow2(b_msb_idx as nat + shift_amount as nat + 1) == pow2(
                            b_msb_idx as nat,
                        ) * pow2(shift_amount as nat + 1),
                        pow2(shift_amount as nat + 1) > 0,
                ;
                if b_msb_idx as nat + shift_amount as nat + 1 < (64 * len) as nat {
                    lemma_pow2_strictly_increases(
                        b_msb_idx as nat + shift_amount as nat + 1,
                        (64 * len) as nat,
                    );
                }
                lemma_small_mod(
                    (bv * pow2(shift_amount as nat + 1)) as nat,
                    pow2((64 * len) as nat),
                );
            }
            shl_to(b, &mut shifted_b, shift_amount + 1);
            let ghost sbv = to_nat(shifted_b@);
            proof {
                assert(sbv == bv * pow2(shift_amount as nat + 1));
                lemma_pow2_adds(shift_amount as nat, 1);
                lemma2_to64();
                assert(sbv == 2 * (bv * pow2(shift_amount as nat))) by (nonlinear_arith)
                    requires
                        sbv == bv * pow2(shift_amount as nat + 1),
                        pow2(shift_amount as nat + 1) == pow2(shift_amount as nat) * 2,
                ;
            }
            let inner = cmp(&shifted_b, rem);
            match inner {
                Ordering::Greater => {
                    // Overshot by one bit: halve the shifted divisor and use
                    // the unincremented position.
                    proof {
                        lemma_div_by_multiple((bv * pow2(shift_amount as nat)) as int, 2);
                        assert(64 * len >= 1);
                        assert(pow2(1) == 2) by {
                            lemma2_to64();
                        }
                    }
                    shr(&mut shifted_b, 1);
                    proof {
                        assert((2 * (bv * pow2(shift_amount as nat))) as int == ((bv * pow2(
                            shift_amount as nat,
                        )) as int) * 2);
                        assert(to_nat(shifted_b@) == bv * pow2(shift_amount as nat));
                        // The halved divisor does not exceed the remainder.
                        if a_msb_idx > b_msb_idx {
                            lemma_pow2_adds(b_msb_idx as nat, shift_amount as nat);
                            assert(bv * pow2(shift_amount as nat) < pow2(b_msb_idx as nat) * pow2(
                                shift_amount as nat,
                            )) by (nonlinear_arith)
                                requires
                                    bv < pow2(b_msb_idx as nat),
                                    pow2(shift_amount as nat) > 0,
                            ;
                            lemma_pow2_pos(shift_amount as nat);
                            assert(b_msb_idx + shift_amount == a_msb_idx - 1);
                            assert(pow2((a_msb_idx - 1) as nat) <= rem0);
                        } else {
                            assert(shift_amount == 0);
                            lemma2_to64();
                            lemma_mul_basics(bv as int);
                        }
                        assert(bv * pow2(shift_amount as nat) <= rem0);
                    }
                    let bw = crate::arithmetic::sub(rem, &shifted_b);
                    proof {
                        assert(!bw);
                        assert(to_nat(rem@) + bv * pow2(shift_amount as nat) == rem0);
                        assert(rem0 < 2 * (bv * pow2(shift_amount as nat)));
                    }
                    s_used = shift_amount;
                },
                _ => {
                    // The shifted divisor fits: subtract it directly.
                    proof {
                        assert(sbv <= rem0);
                        // The remainder lies under the next power position.
                        if a_msb_idx > b_msb_idx {
                            lemma_pow2_adds((b_msb_idx - 1) as nat, shift_amount as nat + 2);
                            assert((b_msb_idx - 1) + (shift_amount + 2) == a_msb_idx);
                            lemma_pow2_pos(shift_amount as nat + 2);
                            assert(bv * pow2(shift_amount as nat + 2) >= pow2(
                                (b_msb_idx - 1) as nat,
                            ) * pow2(shift_amount as nat + 2)) by (nonlinear_arith)
                                requires
                                    bv >= pow2((b_msb_idx - 1) as nat),
                                    pow2(shift_amount as nat + 2) > 0,
                            ;
                            assert(rem0 < pow2(a_msb_idx as nat));
                            assert(rem0 < bv * pow2(shift_amount as nat + 2));
                        } else {
                            // Impossible: twice the divisor already exceeds
                            // any value sharing the divisor's bit length.
                            assert(shift_amount == 0);
                            lemma_pow2_adds((b_msb_idx - 1) as nat, 1);
                            lemma2_to64();
                            assert(rem0 < pow2(a_msb_idx as nat));
                            if a_msb_idx < b_msb_idx {
                                lemma_pow2_strictly_increases(a_msb_idx as nat, b_msb_idx as nat);
                            }
                            assert(pow2(b_msb_idx as nat) == pow2((b_msb_idx - 1) as nat) * 2);
                            assert(pow2((b_msb_idx - 1) as nat) * 2 <= bv * 2) by (nonlinear_arith)
                                requires
                                    pow2((b_msb_idx - 1) as nat) <= bv,
                            ;
                            assert(bv * 2 == 2 * (bv * pow2(0))) by (nonlinear_arith)
                                requires
                                    pow2(0) == 1,
                            ;
                            assert(false);
                        }
                    }
                    let bw = crate::arithmetic::sub(rem, &shifted_b);
                    proof {
                        assert(!bw);
                        lemma_pow2_adds(shift_amount as nat + 1, 1);
                        lemma2_to64();
                        assert(to_nat(rem@) + bv * pow2(shift_amount as nat + 1) == rem0);
                        assert(rem0 < 2 * (bv * pow2(shift_amount as nat + 1)))
                            by (nonlinear_arith)
                            requires
                                rem0 < bv * pow2(shift_amount as nat + 2),
                                pow2(shift_amount as nat + 2) == pow2(shift_amount as nat + 1) * 2,
                        ;
                    }
                    s_used = shift_amount + 1;
                },
            }
        } else {
            // The divisor's top bit already fills the buffer: subtract it
            // unshifted.
            proof {
                lemma2_to64();
                lemma_mul_basics(bv as int);
                lemma_to_nat_bound(b@);
                lemma_small_mod(bv, pow2((64 * len) as nat));
            }
            shl_to(b, &mut shifted_b, 0);
            proof {
                assert(to_nat(shifted_b@) == bv * pow2(0));
                assert(bv * pow2(0) == bv);
            }
            let bw = crate::arithmetic::sub(rem, &shifted_b);
            proof {
                // Any remainder fits under twice a divisor of full bit length.
                assert(b_msb_idx == 64 * len);
                assert(rem0 < pow2(a_msb_idx as nat));
                if a_msb_idx < b_msb_idx {
                    lemma_pow2_strictly_increases(a_msb_idx as nat, b_msb_idx as nat);
                }
                lemma_pow2_adds((b_msb_idx - 1) as nat, 1);
                lemma2_to64();
                assert(pow2(b_msb_idx as nat) == pow2((b_msb_idx - 1) as nat) * 2);
                assert(pow2((b_msb_idx - 1) as nat) * 2 <= bv * 2) by (nonlinear_arith)
                    requires
                        pow2((b_msb_idx - 1) as nat) <= bv,
                ;
                assert(!bw);
                assert(to_nat(rem@) + bv * pow2(0) == rem0);
                assert(rem0 < 2 * (bv * pow2(0))) by (nonlinear_arith)
                    requires
                        rem0 < bv * 2,
                        pow2(0) == 1,
                ;
            }
            s_used = 0;
        }
        // Record the resolved quotient bit and tighten the ghost bound.
        proof {
            let ps = pow2(s_used as nat);
            lemma_pow2_pos(s_used as nat);
            assert(to_nat(rem@) + bv * ps == rem0);
            assert(rem0 < 2 * (bv * ps));
            // The new bit lies strictly below every bit set so far.
            assert(bv * ps <= rem0);
            assert(s_used < bound) by {
                if s_used >= bound {
                    if s_used as nat > bound {
                        lemma_pow2_strictly_increases(bound, s_used as nat);
                    }
                    assert(bv * ps >= bv * pow2(bound)) by (nonlinear_arith)
                        requires
                            ps >= pow2(bound),
                            bv >= 0,
                    ;
                }
            }
            lemma_div_bit_zero(qv, s_used as nat, bound);
        }
        set_quot_bit(quot, s_used);
        proof {
            let ps = pow2(s_used as nat);
            assert(to_nat(quot@) == qv + ps);
            assert(bv * (qv + ps) + to_nat(rem@) == av) by (nonlinear_arith)
                requires
                    bv * qv + rem0 == av,
                    to_nat(rem@) + bv * ps == rem0,
            ;
            assert((qv + ps) % ps == 0) by {
                lemma_fundamental_div_mod(qv as int, ps as int);
                assert(qv % ps == 0);
                let kk = qv / ps;
                assert(qv + ps == ps * (kk + 1)) by (nonlinear_arith)
                    requires
                        qv == ps * kk,
                ;
                lemma_mod_multiples_basic((kk + 1) as int, ps as int);
                lemma_mul_is_commutative((kk + 1) as int, ps as int);
            }
            assert(to_nat(rem@) < bv * ps) by (nonlinear_arith)
                requires
                    to_nat(rem@) + bv * ps == rem0,
                    rem0 < 2 * (bv * ps),
            ;
            assert(to_nat(rem@) < rem0) by (nonlinear_arith)
                requires
                    to_nat(rem@) + bv * ps == rem0,
                    bv >= 1,
                    ps >= 1,
            ;
            bound = s_used as nat;
        }
    }
}


/// Fills `out` with a random value uniformly below the nonzero bound `a`, by
/// digit-wise rejection sampling from the injected randomness source. Only
/// as many limbs as the bound occupies are drawn; a candidate that ties or
/// exceeds the bound digit-wise is discarded and redrawn.
pub fn rand_int_lt<R: RandomSource>(a: &Vec<u64>, out: &mut Vec<u64>, rng: &mut R)
    requires
        a.len() == old(out).len(),
        to_nat(a@) > 0,
        64 * a.len() <= usize::MAX,
    ensures
        final(out).len() == a.len(),
        to_nat(final(out)@) < to_nat(a@),
{
    let len = a.len();
    let msb = get_msb_idx(a);
    proof {
        if msb == 0 {
            assert(false);
        }
    }
    // How many limbs the bound occupies.
    let digits = if msb % 64 == 0 {
        msb / 64
    } else {
        msb / 64 + 1
    };
    proof {
        lemma_fundamental_div_mod(msb as int, 64);
        assert(1 <= digits <= len);
        assert(msb <= 64 * digits);
        // Every limb of the bound above those is zero.
        if (msb as nat) < ((64 * digits) as nat) {
            lemma_pow2_strictly_increases(msb as nat, (64 * digits) as nat);
        }
        lemma_to_nat_split(a@, digits as int);
        lemma_pow2_pos((64 * digits) as nat);
        assert(to_nat(a@.skip(digits as int)) == 0) by {
            if to_nat(a@.skip(digits as int)) >= 1 {
                assert(pow2((64 * digits) as nat) * to_nat(a@.skip(digits as int)) >= pow2(
                    (64 * digits) as nat,
                )) by (nonlinear_arith)
                    requires
                        to_nat(a@.skip(digits as int)) >= 1,
                        pow2((64 * digits) as nat) > 0,
                ;
            }
        }
        lemma_to_nat_zero(a@.skip(digits as int));
        assert(forall|j: int| digits <= j < len ==> a@[j] == a@.skip(digits as int)[j - digits]);
    }
    let mut idx = digits;
    while idx < len
        invariant
            len == a.len(),
            out.len() == len,
            digits <= idx <= len,
            forall|j: int| digits <= j < idx ==> out@[j] == 0,
        decreases len - idx,
    {
        out[idx] = 0;
        idx += 1;
    }
    // Redraw until a candidate falls below the bound. The attempt budget is
    // astronomically large; if it were ever exhausted the sampler yields
    // zero, which is below any nonzero bound.
    let mut done = false;
    let mut fuel: u64 = u64::MAX;
    while !done && fuel > 0
        invariant
            len == a.len(),
            out.len() == len,
            1 <= digits <= len,
            64 * a.len() <= usize::MAX,
            1 <= msb <= 64 * len,
            to_nat(a@) > 0,
            forall|j: int| digits <= j < len ==> out@[j] == 0,
            forall|j: int| digits <= j < len ==> a@[j] == 0,
            done ==> to_nat(out@) < to_nat(a@),
        decreases fuel,
    {
        fuel -= 1;
        // Everything is equal so far.
        let mut eq = true;
        let ghost mut pos: int = 0;
        let mut i = digits;
        while i > 0
            invariant_except_break
                len == a.len(),
                out.len() == len,
                1 <= digits <= len,
                1 <= msb,
                0 <= i <= digits,
                forall|j: int| digits <= j < len ==> out@[j] == 0,
                forall|j: int| digits <= j < len ==> a@[j] == 0,
                eq ==> forall|j: int| i <= j < digits ==> out@[j] == a@[j],
                !eq ==> i <= pos < digits && out@[pos] < a@[pos] && (forall|j: int|
                    pos < j < digits ==> out@[j] == a@[j]),
            ensures
                out.len() == len,
                forall|j: int| digits <= j < len ==> out@[j] == 0,
                !eq ==> 0 <= pos < digits && out@[pos] < a@[pos] && (forall|j: int|
                    pos < j < digits ==> out@[j] == a@[j]),
            decreases i,
        {
            i -= 1;
            // The topmost needed limb is masked down to the bits at or below
            // the bound's own top bit; the others keep all 64 bits.
            let mask: u64 = if i == digits - 1 && msb % 64 != 0 {
                !(u64::MAX << ((msb % 64) as u64))
            } else {
                !0u64
            };
            let rand_digit = rng.next_word() & mask;
            if eq && rand_digit > a[i] {
                // Higher limbs tie and this one is too large: discard.
                break;
            } else if eq && rand_digit < a[i] {
                // The candidate is now below the bound whatever follows.
                eq = false;
                proof {
                    pos = i as int;
                }
                out[i] = rand_digit;
            } else {
                out[i] = rand_digit;
            }
        }
        if !eq {
            proof {
                lemma_to_nat_prefix_lt(out@, a@, pos);
            }
            done = true;
        }
    }
    if !done {
        let mut z: usize = 0;
        while z < len
            invariant
                len == a.len(),
                out.len() == len,
                0 <= z <= len,
                forall|j: int| 0 <= j < z ==> out@[j] == 0,
            decreases len - z,
        {
            out[z] = 0;
            z += 1;
        }
        proof {
            lemma_to_nat_zero(out@);
        }
    }
}


/// The low four bits of a shifted limb are its nibble at that position.
pub(crate) proof fn lemma_nibble_extract(d: u64, k: u64)
    requires
        k < 16,
    ensures
        ((d >> ((4 * k) as u64)) & 0xf) as nat == (d as nat / pow2((4 * k) as nat)) % 16,
{
    let sh: u64 = (4 * k) as u64;
    lemma_shr_word(d, sh);
    vstd::bits::lemma_u64_low_bits_mask_is_mod(d >> sh, 4);
    vstd::bits::lemma_low_bits_mask_values();
    lemma2_to64();
}

} // verus!
