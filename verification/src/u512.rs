//! 512-bit unsigned integers: eight 64-bit limbs behind arithmetic methods,
//! all delegated to the limb engines. Overflowing operations wrap modulo
//! 2^512 by design, as fixed-width hardware integers do.

use vstd::prelude::*;
use vstd::string::StringExecFns;
use vstd::arithmetic::power2::*;
use vstd::arithmetic::div_mod::*;
use core::cmp::Ordering;
use crate::limbs::{to_nat, base, lemma_to_nat_bound, lemma_to_nat_zero, lemma_to_nat_injective,
    lemma_to_nat_limb, lemma_base_is_pow2_64};
use crate::arithmetic;

verus! {

/// The natural number denoted by a big-endian byte sequence.
pub open spec fn be_bytes_nat(b: Seq<u8>) -> nat
    decreases b.len(),
{
    if b.len() == 0 {
        0
    } else {
        be_bytes_nat(b.drop_last()) * 256 + b.last() as nat
    }
}

/// The hexadecimal digit character for a nibble value.
pub open spec fn hex_char(n: nat) -> char {
    if n == 0 {
        '0'
    } else if n == 1 {
        '1'
    } else if n == 2 {
        '2'
    } else if n == 3 {
        '3'
    } else if n == 4 {
        '4'
    } else if n == 5 {
        '5'
    } else if n == 6 {
        '6'
    } else if n == 7 {
        '7'
    } else if n == 8 {
        '8'
    } else if n == 9 {
        '9'
    } else if n == 10 {
        'a'
    } else if n == 11 {
        'b'
    } else if n == 12 {
        'c'
    } else if n == 13 {
        'd'
    } else if n == 14 {
        'e'
    } else {
        'f'
    }
}

/// Appends the hexadecimal digit character for one nibble.
fn push_hex_digit(s: &mut String, nib: u64)
    requires
        nib < 16,
    ensures
        final(s)@ == old(s)@.push(hex_char(nib as nat)),
{
    proof {
        reveal_strlit("0");
        reveal_strlit("1");
        reveal_strlit("2");
        reveal_strlit("3");
        reveal_strlit("4");
        reveal_strlit("5");
        reveal_strlit("6");
        reveal_strlit("7");
        reveal_strlit("8");
        reveal_strlit("9");
        reveal_strlit("a");
        reveal_strlit("b");
        reveal_strlit("c");
        reveal_strlit("d");
        reveal_strlit("e");
        reveal_strlit("f");
    }
    let ghost before = s@;
    match nib {
        0 => s.append("0"),
        1 => s.append("1"),
        2 => s.append("2"),
        3 => s.append("3"),
        4 => s.append("4"),
        5 => s.append("5"),
        6 => s.append("6"),
        7 => s.append("7"),
        8 => s.append("8"),
        9 => s.append("9"),
        10 => s.append("a"),
        11 => s.append("b"),
        12 => s.append("c"),
        13 => s.append("d"),
        14 => s.append("e"),
        _ => s.append("f"),
    }
    proof {
        assert(s@ =~= before.push(hex_char(nib as nat)));
    }
}

/// A nibble of the value equals the same nibble of the limb that holds it.
proof fn lemma_value_nibble(v: nat, d: u64, w: int, k: int)
    requires
        0 <= w,
        0 <= k < 16,
        d as nat == (v / pow2((64 * w) as nat)) % base(),
    ensures
        (v / pow2((64 * w + 4 * k) as nat)) % 16 == (d as nat / pow2((4 * k) as nat)) % 16,
{
    lemma_base_is_pow2_64();
    let pw = pow2((64 * w) as nat);
    let pk = pow2((4 * k) as nat);
    let pm = pow2((64 - 4 * k) as nat);
    lemma_pow2_pos((64 * w) as nat);
    lemma_pow2_pos((4 * k) as nat);
    lemma_pow2_pos((64 - 4 * k) as nat);
    let x = v / pw;
    assert(v / pow2((64 * w + 4 * k) as nat) == x / pk) by {
        lemma_pow2_adds((64 * w) as nat, (4 * k) as nat);
        lemma_div_denominator(v as int, pw as int, pk as int);
    }
    lemma_fundamental_div_mod(x as int, base() as int);
    let q = x / base();
    assert(x == base() * q + d);
    assert(base() == pk * pm) by {
        lemma_pow2_adds((4 * k) as nat, (64 - 4 * k) as nat);
    }
    assert(x == d as nat + (q * pm) * pk) by (nonlinear_arith)
        requires
            x == base() * q + d,
            base() == pk * pm,
    ;
    assert(x as int / pk as int == d as int / pk as int + q * pm) by {
        lemma_hoist_over_denominator(d as int, (q * pm) as int, pk as nat);
    }
    assert(pm == 16 * pow2((60 - 4 * k) as nat)) by {
        lemma_pow2_adds(4, (60 - 4 * k) as nat);
        lemma2_to64();
    }
    assert((d as nat / pk + q * pm) % 16 == (d as nat / pk) % 16) by {
        assert(q * pm == 16 * (q * pow2((60 - 4 * k) as nat))) by (nonlinear_arith)
            requires
                pm == 16 * pow2((60 - 4 * k) as nat),
        ;
        lemma_mod_multiples_vanish(
            (q * pow2((60 - 4 * k) as nat)) as int,
            (d as nat / pk) as int,
            16,
        );
    }
}

/// A 512-bit unsigned integer, stored as eight 64-bit limbs with the least
/// significant limb first.
#[derive(Debug)]
pub struct U512 {
    digits: Vec<u64>,
}

impl U512 {
    /// Every value owns exactly eight limbs.
    #[verifier::type_invariant]
    closed spec fn wf(self) -> bool {
        self.digits@.len() == 8
    }

    /// The natural number this value denotes.
    pub closed spec fn value(self) -> nat {
        to_nat(self.digits@)
    }

    /// Wraps a full limb buffer; the one place a `U512` is built.
    fn literal(digits: Vec<u64>) -> (r: U512)
        requires
            digits@.len() == 8,
        ensures
            r.value() == to_nat(digits@),
    {
        U512 { digits }
    }

    /// A value holding one native word, zero-extended.
    pub fn from_u64(x: u64) -> (r: U512)
        ensures
            r.value() == x,
    {
        let digits: Vec<u64> = vec![x, 0, 0, 0, 0, 0, 0, 0];
        proof {
            lemma_to_nat_zero(digits@.drop_first());
            assert(to_nat(digits@) == x as nat + 0x1_0000_0000_0000_0000 * 0);
        }
        U512::literal(digits)
    }

    /// The zero value.
    pub fn zero() -> (r: U512)
        ensures
            r.value() == 0,
    {
        let digits: Vec<u64> = vec![0, 0, 0, 0, 0, 0, 0, 0];
        proof {
            lemma_to_nat_zero(digits@);
        }
        U512::literal(digits)
    }

    /// Whether the value is zero.
    pub fn is_zero(&self) -> (r: bool)
        ensures
            r <==> self.value() == 0,
    {
        proof {
            use_type_invariant(self);
            lemma_to_nat_zero(self.digits@);
        }
        let mut i: usize = 0;
        let mut all_zero = true;
        while i < 8
            invariant
                self.digits@.len() == 8,
                0 <= i <= 8,
                all_zero <==> (forall|j: int| 0 <= j < i ==> self.digits@[j] == 0),
            decreases 8 - i,
        {
            if self.digits[i] != 0 {
                all_zero = false;
            }
            i += 1;
        }
        all_zero
    }

    /// Builds a value from a big-endian byte sequence of at most 64 bytes;
    /// shorter sequences are zero-extended on the most-significant side.
    pub fn from_bytes_be(bytes: Vec<u8>) -> (r: U512)
        requires
            bytes@.len() <= 64,
        ensures
            r.value() == be_bytes_nat(bytes@),
    {
        let mut digits: Vec<u64> = vec![0, 0, 0, 0, 0, 0, 0, 0];
        proof {
            lemma_to_nat_zero(digits@);
            lemma_pow2_pos(0);
        }
        let n = bytes.len();
        let mut k: usize = 0;
        while k < n
            invariant
                n == bytes@.len() <= 64,
                digits@.len() == 8,
                0 <= k <= n,
                to_nat(digits@) == be_bytes_nat(bytes@.take(k as int)),
                to_nat(digits@) < pow2((8 * k) as nat),
            decreases n - k,
        {
            proof {
                // Shifting in one more byte stays inside 512 bits.
                lemma_pow2_adds((8 * k) as nat, 8);
                lemma2_to64();
                if ((8 * k + 8) as nat) < 512 {
                    lemma_pow2_strictly_increases((8 * k + 8) as nat, 512);
                }
                lemma_pow2_pos(512);
                assert(to_nat(digits@) * 256 < pow2((8 * k) as nat) * 256) by (nonlinear_arith)
                    requires
                        to_nat(digits@) < pow2((8 * k) as nat),
                ;
                assert(pow2(8) == 256);
                lemma_small_mod((to_nat(digits@) * pow2(8)) as nat, pow2(512));
            }
            let ghost prev = to_nat(digits@);
            arithmetic::shl(&mut digits, 8);
            let byte = bytes[k];
            let single: Vec<u64> = vec![byte as u64];
            proof {
                lemma_to_nat_zero(single@.drop_first());
                assert(to_nat(single@) == byte as nat);
                assert(to_nat(digits@) == prev * 256);
                lemma_to_nat_bound(digits@);
            }
            let carry = arithmetic::add(&mut digits, &single);
            proof {
                // No carry: the shifted value left room for a byte.
                assert(prev * 256 + 255 < pow2((8 * (k + 1)) as nat)) by (nonlinear_arith)
                    requires
                        prev < pow2((8 * k) as nat),
                        pow2((8 * (k + 1)) as nat) == pow2((8 * k) as nat) * 256,
                ;
                assert(pow2((8 * (k + 1)) as nat) == pow2((8 * k) as nat) * 256) by {
                    lemma_pow2_adds((8 * k) as nat, 8);
                    lemma2_to64();
                    assert((8 * (k + 1)) as nat == (8 * k) as nat + 8);
                }
                if ((8 * (k + 1)) as nat) < 512 {
                    lemma_pow2_strictly_increases((8 * (k + 1)) as nat, 512);
                }
                if carry {
                    lemma_to_nat_bound(digits@);
                    assert(false);
                }
                assert(to_nat(digits@) == prev * 256 + byte);
                // The invariant's recursion: one more byte on the tail.
                assert(bytes@.take(k as int + 1).drop_last() =~= bytes@.take(k as int));
                assert(bytes@.take(k as int + 1).last() == bytes@[k as int]);
            }
            k += 1;
        }
        proof {
            assert(bytes@.take(n as int) =~= bytes@);
        }
        U512::literal(digits)
    }

    /// Wrapping addition: the sum modulo 2^512.
    pub fn add(&self, rhs: &U512) -> (r: U512)
        ensures
            r.value() == (self.value() + rhs.value()) % pow2(512),
    {
        proof {
            use_type_invariant(self);
            use_type_invariant(rhs);
        }
        let mut digits = arithmetic::subrange_vec(&self.digits, 0, 8);
        proof {
            assert(digits@ =~= self.digits@);
        }
        let carry = arithmetic::add(&mut digits, &rhs.digits);
        proof {
            lemma_to_nat_bound(digits@);
            lemma_to_nat_bound(self.digits@);
            lemma_to_nat_bound(rhs.digits@);
            lemma_pow2_pos(512);
            if carry {
                lemma_mod_multiples_vanish(
                    1,
                    to_nat(digits@) as int,
                    pow2(512) as int,
                );
                lemma_small_mod(to_nat(digits@), pow2(512));
            } else {
                lemma_small_mod(to_nat(digits@), pow2(512));
            }
        }
        U512::literal(digits)
    }

    /// Wrapping subtraction: the difference modulo 2^512.
    pub fn sub(&self, rhs: &U512) -> (r: U512)
        ensures
            r.value() == ((self.value() + pow2(512) - rhs.value()) as int) % (pow2(512) as int),
    {
        proof {
            use_type_invariant(self);
            use_type_invariant(rhs);
        }
        let mut digits = arithmetic::subrange_vec(&self.digits, 0, 8);
        proof {
            assert(digits@ =~= self.digits@);
        }
        let borrow = arithmetic::sub(&mut digits, &rhs.digits);
        proof {
            lemma_to_nat_bound(digits@);
            lemma_to_nat_bound(self.digits@);
            lemma_to_nat_bound(rhs.digits@);
            lemma_pow2_pos(512);
            if borrow {
                lemma_small_mod(to_nat(digits@), pow2(512));
            } else {
                lemma_mod_multiples_vanish(
                    1,
                    to_nat(digits@) as int,
                    pow2(512) as int,
                );
                lemma_small_mod(to_nat(digits@), pow2(512));
            }
        }
        U512::literal(digits)
    }

    /// Wrapping multiplication: the product truncated modulo 2^512.
    pub fn mul(&self, rhs: &U512) -> (r: U512)
        ensures
            r.value() == (self.value() * rhs.value()) % pow2(512),
    {
        proof {
            use_type_invariant(self);
            use_type_invariant(rhs);
            assert(arithmetic::pow2_length(1));
            assert(arithmetic::pow2_length(2));
            assert(arithmetic::pow2_length(4));
            assert(arithmetic::pow2_length(8));
        }
        let digits = arithmetic::mul(&self.digits, &rhs.digits);
        U512::literal(digits)
    }

    /// Euclidean division by a nonzero divisor.
    pub fn div(&self, rhs: &U512) -> (r: U512)
        requires
            rhs.value() != 0,
        ensures
            r.value() == self.value() / rhs.value(),
    {
        let (q, _) = self.div_rem(rhs);
        q
    }

    /// Remainder of Euclidean division by a nonzero divisor.
    pub fn rem(&self, rhs: &U512) -> (r: U512)
        requires
            rhs.value() != 0,
        ensures
            r.value() == self.value() % rhs.value(),
    {
        let (_, r) = self.div_rem(rhs);
        r
    }

    /// Quotient and remainder of Euclidean division by a nonzero divisor.
    pub fn div_rem(&self, rhs: &U512) -> (r: (U512, U512))
        requires
            rhs.value() != 0,
        ensures
            r.0.value() == self.value() / rhs.value(),
            r.1.value() == self.value() % rhs.value(),
    {
        proof {
            use_type_invariant(self);
            use_type_invariant(rhs);
        }
        let mut quot: Vec<u64> = vec![0, 0, 0, 0, 0, 0, 0, 0];
        let mut rem: Vec<u64> = vec![0, 0, 0, 0, 0, 0, 0, 0];
        arithmetic::div_rem(&self.digits, &rhs.digits, &mut quot, &mut rem);
        proof {
            let av = to_nat(self.digits@);
            let bv = to_nat(rhs.digits@);
            lemma_fundamental_div_mod_converse(
                av as int,
                bv as int,
                to_nat(quot@) as int,
                to_nat(rem@) as int,
            );
        }
        let q = U512::literal(quot);
        let r = U512::literal(rem);
        (q, r)
    }

    /// Left shift by a bit count below 512: the value times 2^shift,
    /// truncated modulo 2^512.
    pub fn shl(&self, shift: usize) -> (r: U512)
        requires
            shift < 512,
        ensures
            r.value() == (self.value() * pow2(shift as nat)) % pow2(512),
    {
        proof {
            use_type_invariant(self);
        }
        let mut digits = arithmetic::subrange_vec(&self.digits, 0, 8);
        proof {
            assert(digits@ =~= self.digits@);
        }
        arithmetic::shl(&mut digits, shift);
        U512::literal(digits)
    }

    /// The total order on denoted values.
    pub fn compare(&self, rhs: &U512) -> (r: Ordering)
        ensures
            r == Ordering::Less <==> self.value() < rhs.value(),
            r == Ordering::Equal <==> self.value() == rhs.value(),
            r == Ordering::Greater <==> self.value() > rhs.value(),
    {
        proof {
            use_type_invariant(self);
            use_type_invariant(rhs);
        }
        arithmetic::cmp(&self.digits, &rhs.digits)
    }


    /// Fixed-width zero-padded hexadecimal, grouped by limb with the most
    /// significant limb first: a debugging aid, not a parseable format.
    pub fn to_hex(&self) -> (r: String)
        ensures
            r@.len() == 130,
            r@[0] == '0',
            r@[1] == 'x',
            forall|t: int|
                0 <= t < 128 ==> #[trigger] r@[2 + t] == hex_char(
                    (self.value() / pow2((4 * (127 - t)) as nat)) % 16,
                ),
    {
        proof {
            use_type_invariant(self);
            reveal_strlit("0x");
        }
        let mut s = String::new();
        s.append("0x");
        proof {
            assert(s@ =~= seq!['0', 'x']);
        }
        let ghost v = self.value();
        let mut t: usize = 0;
        while t < 128
            invariant
                self.digits@.len() == 8,
                v == self.value(),
                v == to_nat(self.digits@),
                0 <= t <= 128,
                s@.len() == 2 + t,
                s@[0] == '0',
                s@[1] == 'x',
                forall|j: int|
                    0 <= j < t ==> #[trigger] s@[2 + j] == hex_char(
                        (v / pow2((4 * (127 - j)) as nat)) % 16,
                    ),
            decreases 128 - t,
        {
            let p = 127 - t;
            let w = p / 16;
            let kk = (p % 16) as u64;
            proof {
                lemma_fundamental_div_mod(p as int, 16);
                assert(w < 8);
            }
            let d = self.digits[w];
            let nib = (d >> (4 * kk)) & 0xf;
            proof {
                lemma_to_nat_limb(self.digits@, w as int);
                lemma_value_nibble(v, d, w as int, kk as int);
                assert(64 * (w as int) + 4 * (kk as int) == 4 * (p as int));
                crate::arithmetic::lemma_nibble_extract(d, kk);
                assert(nib as nat == (v / pow2((4 * p) as nat)) % 16);
            }
            push_hex_digit(&mut s, nib);
            t += 1;
        }
        s
    }

}

impl PartialEq for U512 {
    /// Equality of denoted values: limbwise equality of the buffers.
    fn eq(&self, other: &U512) -> (r: bool) {
        proof {
            use_type_invariant(self);
            use_type_invariant(other);
        }
        let mut i: usize = 0;
        let mut same = true;
        while i < 8
            invariant
                self.digits@.len() == 8,
                other.digits@.len() == 8,
                0 <= i <= 8,
                same <==> (forall|j: int| 0 <= j < i ==> self.digits@[j] == other.digits@[j]),
            decreases 8 - i,
        {
            if self.digits[i] != other.digits[i] {
                same = false;
            }
            i += 1;
        }
        proof {
            if same {
                assert(self.digits@ =~= other.digits@);
            } else {
                if self.value() == other.value() {
                    lemma_to_nat_injective(self.digits@, other.digits@);
                }
            }
        }
        same
    }
}

impl vstd::std_specs::cmp::PartialEqSpecImpl for U512 {
    open spec fn obeys_eq_spec() -> bool {
        true
    }

    open spec fn eq_spec(&self, other: &U512) -> bool {
        self.value() == other.value()
    }
}

impl Eq for U512 {}

impl PartialOrd for U512 {
    /// The comparison operators follow the denoted values.
    fn partial_cmp(&self, other: &U512) -> (r: Option<Ordering>) {
        Some(self.compare(other))
    }
}

impl vstd::std_specs::cmp::PartialOrdSpecImpl for U512 {
    open spec fn obeys_partial_cmp_spec() -> bool {
        true
    }

    open spec fn partial_cmp_spec(&self, other: &U512) -> Option<Ordering> {
        if self.value() < other.value() {
            Some(Ordering::Less)
        } else if self.value() > other.value() {
            Some(Ordering::Greater)
        } else {
            Some(Ordering::Equal)
        }
    }
}



} // verus!
