use std::cmp::Ordering;

use bigint512::arithmetic::{
    add, bitand, bitnot, bitor, bitxor, cmp, div_rem, get_msb_idx, mul, mul_full, mul_ints, shl,
    shl_to, shr, sub,
};

#[test]
fn add_simple_and_result_value() {
    let mut a = vec![10u64, 0];
    let b = vec![12u64, 0];
    let carry = add(&mut a, &b);
    assert!(!carry);
    assert_eq!(a, vec![22u64, 0]);
}

#[test]
fn add_carry_propagates_into_next_word() {
    // The low-word sum wraps, so exactly the next word must grow by one.
    let mut a = vec![u64::MAX, 5, 7];
    let b = vec![1u64, 0, 0];
    let carry = add(&mut a, &b);
    assert!(!carry);
    assert_eq!(a, vec![0, 6, 7]);
}

#[test]
fn add_carry_chain_through_saturated_words() {
    let mut a = vec![u64::MAX, u64::MAX, u64::MAX];
    let b = vec![1u64, 0, 0];
    let carry = add(&mut a, &b);
    assert!(carry);
    assert_eq!(a, vec![0, 0, 0]);
}

#[test]
fn add_carry_with_max_addend_word() {
    // An incoming carry on top of a maximal addend word must carry out again.
    let mut a = vec![u64::MAX, u64::MAX, 0];
    let b = vec![1u64, u64::MAX, 0];
    let carry = add(&mut a, &b);
    assert!(!carry);
    assert_eq!(a, vec![0, u64::MAX, 1]);
}

#[test]
fn sub_borrow_with_max_subtrahend_word() {
    // 2^128 - (2^64 - 1)*2^64 - ... : exercises a borrow into a maximal word.
    let mut a = vec![0u64, 0, 1];
    let b = vec![1u64, u64::MAX, 0];
    let borrow = sub(&mut a, &b);
    assert!(!borrow);
    assert_eq!(a, vec![u64::MAX, 0, 0]);
}

#[test]
fn sub_self_gives_zero() {
    let mut a = vec![0xdead_beefu64, 42, 7, u64::MAX];
    let b = a.clone();
    let borrow = sub(&mut a, &b);
    assert!(!borrow);
    assert_eq!(a, vec![0, 0, 0, 0]);
}

#[test]
fn sub_wraps_when_subtrahend_larger() {
    let mut a = vec![3u64];
    let b = vec![5u64];
    let borrow = sub(&mut a, &b);
    assert!(borrow);
    assert_eq!(a, vec![u64::MAX - 1]);
}

#[test]
fn cmp_matches_numeric_order() {
    let a = vec![5u64, 1];
    let b = vec![2u64, 3];
    assert_eq!(cmp(&a, &b), Ordering::Less);
    assert_eq!(cmp(&b, &a), Ordering::Greater);
    assert_eq!(cmp(&a, &a), Ordering::Equal);
    // The most significant differing word decides, not the lowest.
    let c = vec![u64::MAX, 1];
    let d = vec![0u64, 2];
    assert_eq!(cmp(&c, &d), Ordering::Less);
}

#[test]
fn mul_ints_full_product() {
    assert_eq!(mul_ints(20, 16), (320, 0));
    assert_eq!(mul_ints(u64::MAX, u64::MAX), (1, u64::MAX - 1));
    assert_eq!(mul_ints(u64::MAX, 2), (u64::MAX - 1, 1));
    assert_eq!(mul_ints(1 << 32, 1 << 32), (0, 1));
}

#[test]
fn mul_full_splits_double_width_product() {
    // (2^64 - 1)^2 over two-limb operands.
    let a = vec![u64::MAX, 0];
    let b = vec![u64::MAX, 0];
    let (low, high) = mul_full(&a, &b);
    assert_eq!(low, vec![1, u64::MAX - 1]);
    assert_eq!(high, vec![0, 0]);
    // (2^64)^2 = 2^128 lands exactly in the high half.
    let a = vec![0u64, 1];
    let b = vec![0u64, 1];
    let (low, high) = mul_full(&a, &b);
    assert_eq!(low, vec![0, 0]);
    assert_eq!(high, vec![1, 0]);
}

#[test]
fn mul_truncates_to_low_half() {
    let a = vec![0u64, 1, 0, 0];
    let b = vec![0u64, 0, 0, 1];
    // 2^64 * 2^192 = 2^256, which is just past the low half: truncated away.
    assert_eq!(mul(&a, &b), vec![0, 0, 0, 0]);
    let a = vec![3u64, 0, 0, 0];
    let b = vec![5u64, 0, 0, 0];
    assert_eq!(mul(&a, &b), vec![15, 0, 0, 0]);
}

#[test]
fn shifts_cross_word_boundaries() {
    let mut a = vec![1u64, 0, 0];
    shl(&mut a, 64);
    assert_eq!(a, vec![0, 1, 0]);
    shl(&mut a, 65);
    assert_eq!(a, vec![0, 0, 2]);
    shr(&mut a, 65);
    assert_eq!(a, vec![0, 1, 0]);
    shr(&mut a, 64);
    assert_eq!(a, vec![1, 0, 0]);
    // A zero shift is a no-op.
    shl(&mut a, 0);
    shr(&mut a, 0);
    assert_eq!(a, vec![1, 0, 0]);
}

#[test]
fn shift_round_trip_below_leading_zeros() {
    let orig = vec![0xabcd_ef01_2345_6789u64, 0x1122, 0];
    for k in [0usize, 1, 7, 63, 64, 100, 113] {
        let mut a = orig.clone();
        shl(&mut a, k);
        shr(&mut a, k);
        assert_eq!(a, orig);
    }
}

#[test]
fn msb_index_is_one_based_over_whole_buffer() {
    assert_eq!(get_msb_idx(&vec![0u64, 0]), 0);
    assert_eq!(get_msb_idx(&vec![1u64, 0]), 1);
    assert_eq!(get_msb_idx(&vec![0b1000u64, 0]), 4);
    assert_eq!(get_msb_idx(&vec![0u64, 1]), 65);
    assert_eq!(get_msb_idx(&vec![7u64, 1 << 63]), 128);
}

#[test]
fn div_rem_quotient_and_remainder() {
    let a = vec![13u64, 0];
    let b = vec![7u64, 0];
    let mut q = vec![0u64, 0];
    let mut r = vec![0u64, 0];
    div_rem(&a, &b, &mut q, &mut r);
    assert_eq!(q, vec![1, 0]);
    assert_eq!(r, vec![6, 0]);
    // A divisor whose top bit fills the whole buffer.
    let a = vec![1u64, 1 << 63];
    let b = vec![0u64, 1 << 63];
    div_rem(&a, &b, &mut q, &mut r);
    assert_eq!(q, vec![1, 0]);
    assert_eq!(r, vec![1, 0]);
    // Division reconstructs the dividend: a == b*q + r with r < b.
    let a = vec![0x0123_4567_89ab_cdefu64, 0xfedc_ba98_7654_3210, 0x1111_2222_3333_4444, 0];
    let b = vec![0x9999_8888_7777_6666u64, 0x5555, 0, 0];
    let mut q = vec![0u64; 4];
    let mut r = vec![0u64; 4];
    div_rem(&a, &b, &mut q, &mut r);
    let mut back = mul(&q, &b);
    let carry = add(&mut back, &r);
    assert!(!carry);
    assert_eq!(back, a);
    assert_eq!(cmp(&r, &b), Ordering::Less);
}

#[test]
fn bitwise_ops_are_elementwise() {
    let mut a = vec![0b1100u64, u64::MAX];
    bitor(&mut a, &vec![0b1010u64, 0]);
    assert_eq!(a, vec![0b1110, u64::MAX]);
    bitand(&mut a, &vec![0b0110u64, 1]);
    assert_eq!(a, vec![0b0110, 1]);
    bitxor(&mut a, &vec![0b0101u64, 1]);
    assert_eq!(a, vec![0b0011, 0]);
    bitnot(&mut a);
    assert_eq!(a, vec![!0b0011u64, u64::MAX]);
}

#[test]
fn add_is_commutative_on_sample_buffers() {
    let x = vec![u64::MAX, 3, 0x5555_aaaa, 9];
    let y = vec![17u64, u64::MAX, 1, 0xffff_0000];
    let mut ab = x.clone();
    let ca = add(&mut ab, &y);
    let mut ba = y.clone();
    let cb = add(&mut ba, &x);
    assert_eq!(ab, ba);
    assert_eq!(ca, cb);
}

#[test]
fn shl_to_copies_then_shifts() {
    let src = vec![3u64, 0, 0];
    let mut dst = vec![9u64, 9, 9];
    shl_to(&src, &mut dst, 65);
    assert_eq!(dst, vec![0, 6, 0]);
    assert_eq!(src, vec![3, 0, 0]);
}
