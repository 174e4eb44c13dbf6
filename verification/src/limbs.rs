//! The mathematical model of a limb buffer: an ordered sequence of 64-bit
//! words, least significant first, denoting the natural number
//! `sum s[i] * 2^(64*i)`.

use vstd::prelude::*;
use vstd::arithmetic::power2::*;
use vstd::arithmetic::div_mod::*;
use vstd::arithmetic::mul::*;

verus! {

/// One more than the largest value a single limb can hold: 2^64.
pub open spec fn base() -> nat {
    0x1_0000_0000_0000_0000
}

/// The natural number denoted by a little-endian limb sequence.
pub open spec fn to_nat(s: Seq<u64>) -> nat
    decreases s.len(),
{
    if s.len() == 0 {
        0
    } else {
        s[0] as nat + base() * to_nat(s.drop_first())
    }
}

/// The base is 2^64.
pub proof fn lemma_base_is_pow2_64()
    ensures
        base() == pow2(64),
{
    lemma2_to64();
}

/// A sequence of n limbs denotes a value below 2^(64*n).
pub proof fn lemma_to_nat_bound(s: Seq<u64>)
    ensures
        to_nat(s) < pow2(64 * s.len()),
    decreases s.len(),
{
    lemma_base_is_pow2_64();
    if s.len() == 0 {
        lemma2_to64();
    } else {
        let rest = s.drop_first();
        lemma_to_nat_bound(rest);
        lemma_pow2_adds(64, 64 * rest.len());
        assert(64 * s.len() == 64 + 64 * rest.len());
        let p = pow2(64 * rest.len());
        assert(to_nat(rest) <= p - 1);
        assert(base() * to_nat(rest) <= base() * (p - 1)) by {
            lemma_mul_inequality(to_nat(rest) as int, p - 1, base() as int);
        }
        assert(base() * (p - 1) == base() * p - base()) by {
            lemma_mul_is_distributive_sub(base() as int, p as int, 1);
        }
        assert(to_nat(s) < base() * p);
    }
}

/// Splitting a limb sequence at position k splits its value at weight 2^(64*k).
pub proof fn lemma_to_nat_split(s: Seq<u64>, k: int)
    requires
        0 <= k <= s.len(),
    ensures
        to_nat(s) == to_nat(s.take(k)) + pow2((64 * k) as nat) * to_nat(s.skip(k)),
    decreases k,
{
    lemma_base_is_pow2_64();
    if k == 0 {
        assert(s.take(0).len() == 0);
        assert(s.skip(0) =~= s);
        lemma2_to64();
    } else {
        let d = s.drop_first();
        lemma_to_nat_split(d, k - 1);
        assert(s.take(k).drop_first() =~= d.take(k - 1));
        assert(s.take(k)[0] == s[0]);
        assert(s.take(k).len() == k);
        assert(to_nat(s.take(k)) == s[0] as nat + base() * to_nat(d.take(k - 1)));
        assert(s.skip(k) =~= d.skip(k - 1));
        let p1 = pow2((64 * (k - 1)) as nat);
        let t = to_nat(d.take(k - 1));
        let h = to_nat(d.skip(k - 1));
        assert(to_nat(d) == t + p1 * h);
        assert(base() * (t + p1 * h) == base() * t + base() * (p1 * h)) by {
            lemma_mul_is_distributive_add(base() as int, t as int, (p1 * h) as int);
        }
        assert(base() * (p1 * h) == (base() * p1) * h) by {
            lemma_mul_is_associative(base() as int, p1 as int, h as int);
        }
        assert(base() * p1 == pow2((64 * k) as nat)) by {
            lemma_pow2_adds(64, (64 * (k - 1)) as nat);
            assert(64 + 64 * (k - 1) == 64 * k);
        }
        assert(to_nat(s) == s[0] as nat + base() * to_nat(d));
    }
}

/// Extending a prefix by one limb adds that limb at its weight.
pub proof fn lemma_to_nat_take_succ(s: Seq<u64>, i: int)
    requires
        0 <= i < s.len(),
    ensures
        to_nat(s.take(i + 1)) == to_nat(s.take(i)) + pow2((64 * i) as nat) * (s[i] as nat),
{
    let t = s.take(i + 1);
    lemma_to_nat_split(t, i);
    assert(t.take(i) =~= s.take(i));
    let single = t.skip(i);
    assert(single.len() == 1);
    assert(single[0] == s[i]);
    assert(single.drop_first().len() == 0);
    assert(to_nat(single.drop_first()) == 0);
    assert(to_nat(single) == s[i] as nat);
}

/// A limb sequence denotes zero exactly when every limb is zero.
pub proof fn lemma_to_nat_zero(s: Seq<u64>)
    ensures
        to_nat(s) == 0 <==> (forall|i: int| 0 <= i < s.len() ==> s[i] == 0),
    decreases s.len(),
{
    if s.len() > 0 {
        let d = s.drop_first();
        lemma_to_nat_zero(d);
        if to_nat(s) == 0 {
            assert(s[0] == 0);
            assert(base() * to_nat(d) == 0);
            assert(to_nat(d) == 0) by {
                if to_nat(d) != 0 {
                    lemma_mul_strictly_positive(base() as int, to_nat(d) as int);
                }
            }
            assert(forall|i: int| 0 <= i < s.len() ==> s[i] == 0) by {
                assert(forall|i: int| 1 <= i < s.len() ==> s[i] == d[i - 1]);
            }
        }
        if forall|i: int| 0 <= i < s.len() ==> s[i] == 0 {
            assert(forall|i: int| 0 <= i < d.len() ==> d[i] == s[i + 1] && s[i + 1] == 0);
            assert(to_nat(d) == 0);
        }
    }
}

/// Equal-length limb sequences with the same value are the same sequence.
pub proof fn lemma_to_nat_injective(a: Seq<u64>, b: Seq<u64>)
    requires
        a.len() == b.len(),
        to_nat(a) == to_nat(b),
    ensures
        a == b,
    decreases a.len(),
{
    if a.len() > 0 {
        let ra = to_nat(a.drop_first());
        let rb = to_nat(b.drop_first());
        assert(a[0] as nat + base() * ra == b[0] as nat + base() * rb);
        assert(a[0] == b[0] && ra == rb) by {
            lemma_fundamental_div_mod_converse(
                to_nat(a) as int,
                base() as int,
                ra as int,
                a[0] as int,
            );
            lemma_fundamental_div_mod_converse(
                to_nat(b) as int,
                base() as int,
                rb as int,
                b[0] as int,
            );
        }
        lemma_to_nat_injective(a.drop_first(), b.drop_first());
        assert(a =~= b) by {
            assert(forall|i: int|
                1 <= i < a.len() ==> a[i] == a.drop_first()[i - 1] && b[i] == b.drop_first()[i
                    - 1]);
        }
    } else {
        assert(a =~= b);
    }
}

/// Overwriting one limb changes the value by the difference at that weight.
pub proof fn lemma_to_nat_update(s: Seq<u64>, i: int, x: u64)
    requires
        0 <= i < s.len(),
    ensures
        to_nat(s.update(i, x)) + pow2((64 * i) as nat) * (s[i] as nat) == to_nat(s) + pow2(
            (64 * i) as nat,
        ) * (x as nat),
{
    let u = s.update(i, x);
    let p = pow2((64 * i) as nat);
    let pb = pow2((64 * (i + 1)) as nat);
    lemma_to_nat_split(s, i + 1);
    lemma_to_nat_split(u, i + 1);
    lemma_to_nat_take_succ(s, i);
    lemma_to_nat_take_succ(u, i);
    assert(u.take(i) =~= s.take(i));
    assert(u.skip(i + 1) =~= s.skip(i + 1));
    assert(u[i] == x);
}

/// If two equal-length sequences agree above position i and differ there,
/// the one with the smaller limb at i denotes the smaller value.
pub proof fn lemma_to_nat_prefix_lt(a: Seq<u64>, b: Seq<u64>, i: int)
    requires
        a.len() == b.len(),
        0 <= i < a.len(),
        a[i] < b[i],
        forall|j: int| i < j < a.len() ==> a[j] == b[j],
    ensures
        to_nat(a) < to_nat(b),
{
    lemma_base_is_pow2_64();
    let p = pow2((64 * i) as nat);
    lemma_to_nat_split(a, i);
    lemma_to_nat_split(b, i);
    assert(a.skip(i).len() == a.len() - i);
    assert(a.skip(i)[0] == a[i]);
    assert(a.skip(i).drop_first() =~= a.skip(i + 1));
    assert(b.skip(i)[0] == b[i]);
    assert(b.skip(i).drop_first() =~= b.skip(i + 1));
    assert(a.skip(i + 1) =~= b.skip(i + 1));
    let r = to_nat(a.skip(i + 1));
    assert(to_nat(a.skip(i)) == a[i] as nat + base() * r);
    assert(to_nat(b.skip(i)) == b[i] as nat + base() * r);
    lemma_to_nat_bound(a.take(i));
    assert(a.take(i).len() == i);
    assert(to_nat(a.take(i)) < p);
    assert(to_nat(a) < p + p * (a[i] as nat + base() * r)) by {
        lemma_mul_inequality(
            (a[i] as nat + base() * r) as int,
            (a[i] as nat + base() * r) as int,
            p as int,
        );
    }
    assert(p + p * (a[i] as nat + base() * r) == p * (1 + a[i] as nat + base() * r)) by {
        lemma_mul_is_distributive_add(p as int, 1, (a[i] as nat + base() * r) as int);
    }
    assert(p * (1 + a[i] as nat + base() * r) <= p * (b[i] as nat + base() * r)) by (nonlinear_arith)
        requires
            1 + a[i] as nat <= b[i] as nat,
            p >= 0,
            r >= 0,
    ;
    assert(p * (b[i] as nat + base() * r) <= to_nat(b));
}


/// Appending a limb on the most-significant end adds it at the next weight.
pub proof fn lemma_to_nat_push(s: Seq<u64>, x: u64)
    ensures
        to_nat(s.push(x)) == to_nat(s) + pow2((64 * s.len()) as nat) * (x as nat),
{
    let p = s.push(x);
    assert(p.take(s.len() as int) =~= s);
    assert(p.take(s.len() as int + 1) =~= p);
    lemma_to_nat_take_succ(p, s.len() as int);
}


/// Reading one limb out of the value: limb w is the w-th base-2^64 digit.
pub proof fn lemma_to_nat_limb(s: Seq<u64>, w: int)
    requires
        0 <= w < s.len(),
    ensures
        (to_nat(s) / pow2((64 * w) as nat)) % base() == s[w] as nat,
{
    lemma_base_is_pow2_64();
    let v = to_nat(s);
    let pw = pow2((64 * w) as nat);
    lemma_pow2_pos((64 * w) as nat);
    lemma_pow2_pos(64);
    lemma_to_nat_split(s, w);
    let t = to_nat(s.take(w));
    let sk = s.skip(w);
    assert(sk[0] == s[w]);
    assert(sk.drop_first() =~= s.skip(w + 1));
    let rr = to_nat(s.skip(w + 1));
    assert(to_nat(sk) == s[w] as nat + base() * rr);
    lemma_to_nat_bound(s.take(w));
    assert(s.take(w).len() == w);
    assert(v as int / pw as int == to_nat(sk) as int) by {
        lemma_mul_is_commutative(to_nat(sk) as int, pw as int);
        lemma_fundamental_div_mod_converse(v as int, pw as int, to_nat(sk) as int, t as int);
    }
    assert(to_nat(sk) % base() == s[w] as nat) by {
        lemma_mul_is_commutative(rr as int, base() as int);
        lemma_fundamental_div_mod_converse(
            to_nat(sk) as int,
            base() as int,
            rr as int,
            s[w] as int,
        );
    }
}

} // verus!
